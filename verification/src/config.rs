//! The configuration file: `KEY=value` lines naming the notes root, the
//! quick-notes and daily-logs directories, the editor and the optional tools.
use vstd::prelude::*;
use crate::paths::{path_join, path_join_spec};
use crate::text::{
    append_chars, chars_of, free_of, is_ws, lemma_lines_state_line, lemma_split_once_at, lemma_trim_plain, lines,
    lines_state, opt_str_view, split_lines, split_once, split_once_chars, starts_with, starts_with_chars,
    strip_cr, string_of, trim, trim_chars,
};

verus! {

/// Application configuration loaded from a key=value file.
pub struct Config {
    pub notez_root: String,
    pub quick_notes_dir: String,
    pub daily_logs_dir: String,
    pub editor: String,
    pub has_fzf: bool,
    pub has_rg: bool,
    pub has_yazi: bool,
}

/// The mathematical content of a `Config`.
pub struct ConfigView {
    pub notez_root: Seq<char>,
    pub quick_notes_dir: Seq<char>,
    pub daily_logs_dir: Seq<char>,
    pub editor: Seq<char>,
    pub has_fzf: bool,
    pub has_rg: bool,
    pub has_yazi: bool,
}

impl View for Config {
    type V = ConfigView;

    open spec fn view(&self) -> ConfigView {
        ConfigView {
            notez_root: self.notez_root@,
            quick_notes_dir: self.quick_notes_dir@,
            daily_logs_dir: self.daily_logs_dir@,
            editor: self.editor@,
            has_fzf: self.has_fzf,
            has_rg: self.has_rg,
            has_yazi: self.has_yazi,
        }
    }
}

/// The user's home directory as `dirs::home_dir` reports it.
#[verifier::external_body]
pub(crate) fn home_dir() -> (r: Option<String>)
{
    dirs::home_dir().map(|p| p.to_string_lossy().to_string())
}

pub open spec fn key_root() -> Seq<char> {
    seq!['N', 'O', 'T', 'E', 'Z', '_', 'R', 'O', 'O', 'T']
}

pub open spec fn key_quick() -> Seq<char> {
    seq!['Q', 'U', 'I', 'C', 'K', '_', 'N', 'O', 'T', 'E', 'S', '_', 'D', 'I', 'R']
}

pub open spec fn key_daily() -> Seq<char> {
    seq!['D', 'A', 'I', 'L', 'Y', '_', 'L', 'O', 'G', 'S', '_', 'D', 'I', 'R']
}

pub open spec fn key_editor() -> Seq<char> {
    seq!['E', 'D', 'I', 'T', 'O', 'R']
}

pub open spec fn key_fzf() -> Seq<char> {
    seq!['H', 'A', 'S', '_', 'F', 'Z', 'F']
}

pub open spec fn key_rg() -> Seq<char> {
    seq!['H', 'A', 'S', '_', 'R', 'G']
}

pub open spec fn key_yazi() -> Seq<char> {
    seq!['H', 'A', 'S', '_', 'Y', 'A', 'Z', 'I']
}

pub open spec fn word_true() -> Seq<char> {
    seq!['t', 'r', 'u', 'e']
}

pub open spec fn word_false() -> Seq<char> {
    seq!['f', 'a', 'l', 's', 'e']
}

/// `expand_tilde` given the home directory: a leading `~` of `~` or `~/...`
/// becomes the home directory when one is known.
pub open spec fn expanded(path: Seq<char>, home: Option<Seq<char>>) -> Seq<char> {
    if (starts_with(path, seq!['~', '/']) || path == seq!['~']) && home is Some {
        home->0 + path.skip(1)
    } else {
        path
    }
}

/// A configuration with every field empty or false.
pub open spec fn empty_config() -> ConfigView {
    ConfigView {
        notez_root: Seq::empty(),
        quick_notes_dir: Seq::empty(),
        daily_logs_dir: Seq::empty(),
        editor: Seq::empty(),
        has_fzf: false,
        has_rg: false,
        has_yazi: false,
    }
}

/// The effect of one line of the configuration file: blank lines and `#`
/// comments are skipped; `KEY=value` sets the field of a known key (trimmed;
/// `NOTEZ_ROOT` tilde-expanded; flags are true exactly for `true`).
pub open spec fn apply_config_line(c: ConfigView, line: Seq<char>, home: Option<Seq<char>>) -> ConfigView {
    let t = trim(line);
    if t.len() == 0 || t[0] == '#' {
        c
    } else {
        match split_once(t, '=') {
            Some((k, v)) => {
                let key = trim(k);
                let val = trim(v);
                if key == key_root() {
                    ConfigView { notez_root: expanded(val, home), ..c }
                } else if key == key_quick() {
                    ConfigView { quick_notes_dir: val, ..c }
                } else if key == key_daily() {
                    ConfigView { daily_logs_dir: val, ..c }
                } else if key == key_editor() {
                    ConfigView { editor: val, ..c }
                } else if key == key_fzf() {
                    ConfigView { has_fzf: val == word_true(), ..c }
                } else if key == key_rg() {
                    ConfigView { has_rg: val == word_true(), ..c }
                } else if key == key_yazi() {
                    ConfigView { has_yazi: val == word_true(), ..c }
                } else {
                    c
                }
            },
            None => c,
        }
    }
}

/// The configuration after applying the lines in order.
pub open spec fn apply_config_lines(ls: Seq<Seq<char>>, home: Option<Seq<char>>) -> ConfigView
    decreases ls.len(),
{
    if ls.len() == 0 {
        empty_config()
    } else {
        apply_config_line(apply_config_lines(ls.drop_last(), home), ls.last(), home)
    }
}

/// The configuration a file's content gives (no file: no configuration).
pub open spec fn loaded_config(content: Option<Seq<char>>, home: Option<Seq<char>>) -> Option<ConfigView> {
    match content {
        Some(c) => Some(apply_config_lines(lines(c), home)),
        None => None,
    }
}

/// `true` or `false` as `Display` writes it.
pub open spec fn bool_text(b: bool) -> Seq<char> {
    if b {
        word_true()
    } else {
        word_false()
    }
}

/// `KEY=value` and a newline.
pub open spec fn config_line(key: Seq<char>, value: Seq<char>) -> Seq<char> {
    key + seq!['='] + value + seq!['\n']
}

/// The file content `save` writes: one line per field, in a fixed order.
pub open spec fn saved_config(c: ConfigView) -> Seq<char> {
    config_line(key_root(), c.notez_root) + config_line(key_quick(), c.quick_notes_dir)
        + config_line(key_daily(), c.daily_logs_dir) + config_line(key_editor(), c.editor)
        + config_line(key_fzf(), bool_text(c.has_fzf)) + config_line(key_rg(), bool_text(c.has_rg))
        + config_line(key_yazi(), bool_text(c.has_yazi))
}

/// Whether two character slices are equal.
fn chars_eq(a: &[char], b: &[char]) -> (r: bool)
    ensures
        r == (a@ == b@),
{
    let r = a.len() == b.len() && starts_with_chars(a, b);
    proof {
        if r {
            assert(a@ =~= b@);
        }
        if a@ == b@ {
            assert(a@.subrange(0, b@.len() as int) =~= b@);
        }
    }
    r
}

/// Expand a leading `~` using the given home directory.
pub fn expand_tilde_with(path: &str, home: Option<&str>) -> (r: String)
    ensures
        r@ == expanded(path@, opt_str_view(home)),
{
    let p = chars_of(path);
    let tilde_slash = vec!['~', '/'];
    let tilde = vec!['~'];
    proof {
        assert(tilde_slash@ =~= seq!['~', '/']);
        assert(tilde@ =~= seq!['~']);
    }
    if starts_with_chars(p.as_slice(), tilde_slash.as_slice()) || chars_eq(p.as_slice(), tilde.as_slice()) {
        match home {
            Some(h) => {
                let mut out = chars_of(h);
                let rest = crate::text::slice_chars(p.as_slice(), 1, p.len());
                append_chars(&mut out, rest.as_slice());
                proof {
                    assert(rest@ =~= p@.skip(1));
                }
                return string_of(out.as_slice());
            },
            None => {},
        }
    }
    string_of(p.as_slice())
}

/// Expand a leading `~` to the user's home directory (whatever
/// `dirs::home_dir` reports; unchanged when it reports none).
pub fn expand_tilde(path: &str) -> (r: String)
    ensures
        exists|h: Option<Seq<char>>| r@ == #[trigger] expanded(path@, h),
{
    let home = home_dir();
    match home {
        Some(h) => {
            let r = expand_tilde_with(path, Some(h.as_str()));
            proof {
                assert(r@ == expanded(path@, Some(h@)));
            }
            r
        },
        None => {
            let r = expand_tilde_with(path, None);
            proof {
                assert(r@ == expanded(path@, None));
            }
            r
        },
    }
}

impl Config {
    /// The configuration a file content gives, `None` when the file could not
    /// be read, given the home directory used to expand `~` in the root.
    pub fn load_with_home(content: Option<&str>, home: Option<&str>) -> (r: Option<Config>)
        ensures
            match r {
                Some(c) => loaded_config(
                    opt_str_view(content),
                    opt_str_view(home),
                ) == Some(c@),
                None => content is None,
            },
    {
        let text = match content {
            Some(t) => t,
            None => return None,
        };
        let ghost hv: Option<Seq<char>> = opt_str_view(home);
        let c = chars_of(text);
        let ls = split_lines(c.as_slice());
        let mut cfg = Config {
            notez_root: String::new(),
            quick_notes_dir: String::new(),
            daily_logs_dir: String::new(),
            editor: String::new(),
            has_fzf: false,
            has_rg: false,
            has_yazi: false,
        };
        proof {
            assert(cfg@ == empty_config());
        }
        let k_root = vec!['N', 'O', 'T', 'E', 'Z', '_', 'R', 'O', 'O', 'T'];
        let k_quick = vec!['Q', 'U', 'I', 'C', 'K', '_', 'N', 'O', 'T', 'E', 'S', '_', 'D', 'I', 'R'];
        let k_daily = vec!['D', 'A', 'I', 'L', 'Y', '_', 'L', 'O', 'G', 'S', '_', 'D', 'I', 'R'];
        let k_editor = vec!['E', 'D', 'I', 'T', 'O', 'R'];
        let k_fzf = vec!['H', 'A', 'S', '_', 'F', 'Z', 'F'];
        let k_rg = vec!['H', 'A', 'S', '_', 'R', 'G'];
        let k_yazi = vec!['H', 'A', 'S', '_', 'Y', 'A', 'Z', 'I'];
        let w_true = vec!['t', 'r', 'u', 'e'];
        proof {
            assert(k_root@ =~= key_root());
            assert(k_quick@ =~= key_quick());
            assert(k_daily@ =~= key_daily());
            assert(k_editor@ =~= key_editor());
            assert(k_fzf@ =~= key_fzf());
            assert(k_rg@ =~= key_rg());
            assert(k_yazi@ =~= key_yazi());
            assert(w_true@ =~= word_true());
        }
        let mut i: usize = 0;
        while i < ls.len()
            invariant
                i <= ls@.len(),
                crate::text::views(ls@) == lines(text@),
                k_root@ == key_root(),
                k_quick@ == key_quick(),
                k_daily@ == key_daily(),
                k_editor@ == key_editor(),
                k_fzf@ == key_fzf(),
                k_rg@ == key_rg(),
                k_yazi@ == key_yazi(),
                w_true@ == word_true(),
                hv == opt_str_view(home),
                cfg@ == apply_config_lines(crate::text::views(ls@).take(i as int), hv),
            decreases ls.len() - i,
        {
            proof {
                let vs = crate::text::views(ls@);
                assert(vs.take(i + 1).drop_last() =~= vs.take(i as int));
                assert(vs.take(i + 1).last() == ls@[i as int]@);
            }
            let t = trim_chars(ls[i].as_slice());
            if t.len() > 0 && t[0] != '#' {
                match split_once_chars(t.as_slice(), '=') {
                    Some((k, v)) => {
                        let key = trim_chars(k.as_slice());
                        let val = trim_chars(v.as_slice());
                        if chars_eq(key.as_slice(), k_root.as_slice()) {
                            let vs = string_of(val.as_slice());
                            cfg.notez_root = expand_tilde_with(vs.as_str(), home);
                        } else if chars_eq(key.as_slice(), k_quick.as_slice()) {
                            cfg.quick_notes_dir = string_of(val.as_slice());
                        } else if chars_eq(key.as_slice(), k_daily.as_slice()) {
                            cfg.daily_logs_dir = string_of(val.as_slice());
                        } else if chars_eq(key.as_slice(), k_editor.as_slice()) {
                            cfg.editor = string_of(val.as_slice());
                        } else if chars_eq(key.as_slice(), k_fzf.as_slice()) {
                            cfg.has_fzf = chars_eq(val.as_slice(), w_true.as_slice());
                        } else if chars_eq(key.as_slice(), k_rg.as_slice()) {
                            cfg.has_rg = chars_eq(val.as_slice(), w_true.as_slice());
                        } else if chars_eq(key.as_slice(), k_yazi.as_slice()) {
                            cfg.has_yazi = chars_eq(val.as_slice(), w_true.as_slice());
                        }
                    },
                    None => {},
                }
            }
            i = i + 1;
        }
        proof {
            assert(crate::text::views(ls@).take(ls@.len() as int) =~= crate::text::views(ls@));
        }
        Some(cfg)
    }

    /// Load the configuration from a file's content (`None`: the file could
    /// not be read), expanding `~` with the home directory `dirs::home_dir`
    /// reports.
    pub fn load(content: Option<&str>) -> (r: Option<Config>)
        ensures
            r is None <==> content is None,
            r matches Some(c) ==> exists|h: Option<Seq<char>>| #[trigger] loaded_config(
                opt_str_view(content),
                h,
            ) == Some(c@),
    {
        let home = home_dir();
        match home {
            Some(h) => Config::load_with_home(content, Some(h.as_str())),
            None => Config::load_with_home(content, None),
        }
    }

    /// The file content that stores this configuration.
    pub fn save(&self) -> (r: String)
        ensures
            r@ == saved_config(self@),
    {
        let mut out: Vec<char> = Vec::new();
        Self::push_line(&mut out, vec!['N', 'O', 'T', 'E', 'Z', '_', 'R', 'O', 'O', 'T'], self.notez_root.as_str());
        Self::push_line(&mut out, vec!['Q', 'U', 'I', 'C', 'K', '_', 'N', 'O', 'T', 'E', 'S', '_', 'D', 'I', 'R'], self.quick_notes_dir.as_str());
        Self::push_line(&mut out, vec!['D', 'A', 'I', 'L', 'Y', '_', 'L', 'O', 'G', 'S', '_', 'D', 'I', 'R'], self.daily_logs_dir.as_str());
        Self::push_line(&mut out, vec!['E', 'D', 'I', 'T', 'O', 'R'], self.editor.as_str());
        let t = string_of(vec!['t', 'r', 'u', 'e'].as_slice());
        let f = string_of(vec!['f', 'a', 'l', 's', 'e'].as_slice());
        proof {
            assert(t@ =~= word_true());
            assert(f@ =~= word_false());
        }
        Self::push_line(&mut out, vec!['H', 'A', 'S', '_', 'F', 'Z', 'F'], if self.has_fzf { t.as_str() } else { f.as_str() });
        Self::push_line(&mut out, vec!['H', 'A', 'S', '_', 'R', 'G'], if self.has_rg { t.as_str() } else { f.as_str() });
        Self::push_line(&mut out, vec!['H', 'A', 'S', '_', 'Y', 'A', 'Z', 'I'], if self.has_yazi { t.as_str() } else { f.as_str() });
        proof {
            assert(out@ =~= saved_config(self@));
        }
        string_of(out.as_slice())
    }

    /// Appends `KEY=value` and a newline.
    fn push_line(out: &mut Vec<char>, key: Vec<char>, value: &str)
        ensures
            final(out)@ == old(out)@ + config_line(key@, value@),
    {
        let ghost before = out@;
        append_chars(out, key.as_slice());
        out.push('=');
        let v = chars_of(value);
        append_chars(out, v.as_slice());
        out.push('\n');
        proof {
            assert(out@ =~= before + config_line(key@, value@));
        }
    }

    /// The notes root.
    pub fn root_path(&self) -> (r: String)
        ensures
            r@ == self.notez_root@,
    {
        self.notez_root.clone()
    }

    /// The global quick-notes directory: the root joined with its name.
    pub fn quick_notes_path(&self) -> (r: String)
        ensures
            r@ == path_join_spec(self.notez_root@, self.quick_notes_dir@),
    {
        path_join(self.notez_root.as_str(), self.quick_notes_dir.as_str())
    }

    /// The global daily-logs directory: the root joined with its name.
    pub fn daily_logs_path(&self) -> (r: String)
        ensures
            r@ == path_join_spec(self.notez_root@, self.daily_logs_dir@),
    {
        path_join(self.notez_root.as_str(), self.daily_logs_dir.as_str())
    }
}

// ---------------------------------------------------------------------------
// Reading back what was saved
// ---------------------------------------------------------------------------

/// A value that `save` writes on one line and `load` reads back as it was:
/// no line break and no white space at either end.
pub open spec fn plain_value(v: Seq<char>) -> bool {
    free_of(v, '\n') && (v.len() > 0 ==> !is_ws(v[0]) && !is_ws(v.last()))
}

/// A configuration that survives a save and a load with home directory
/// `home`: plain values, and a root that tilde expansion leaves alone.
pub open spec fn survives_reload(c: ConfigView, home: Option<Seq<char>>) -> bool {
    &&& plain_value(c.notez_root)
    &&& plain_value(c.quick_notes_dir)
    &&& plain_value(c.daily_logs_dir)
    &&& plain_value(c.editor)
    &&& expanded(c.notez_root, home) == c.notez_root
}

/// A key as `save` writes it: a word without `=`, line breaks or blanks at
/// its ends, not starting a comment.
spec fn plain_key(k: Seq<char>) -> bool {
    &&& k.len() > 0
    &&& free_of(k, '=')
    &&& free_of(k, '\n')
    &&& !is_ws(k[0])
    &&& !is_ws(k.last())
    &&& k[0] != '#'
}

proof fn lemma_saved_line(s: Seq<char>, key: Seq<char>, v: Seq<char>)
    requires
        lines_state(s).1.len() == 0,
        plain_key(key),
        plain_value(v) || v == word_true() || v == word_false(),
    ensures
        lines_state(s + config_line(key, v)) == (
            lines_state(s).0.push(key + seq!['='] + v),
            Seq::<char>::empty(),
        ),
        trim(key + seq!['='] + v) == key + seq!['='] + v,
        (key + seq!['='] + v).len() > 0,
        (key + seq!['='] + v)[0] != '#',
        split_once(key + seq!['='] + v, '=') == Some((key, v)),
        trim(key) == key,
        trim(v) == v,
{
    let body = key + seq!['='] + v;
    assert(s + config_line(key, v) =~= s + body + seq!['\n']);
    assert(free_of(body, '\n')) by {
        assert forall|i: int| 0 <= i < body.len() implies body[i] != '\n' by {
            if i < key.len() {
                assert(body[i] == key[i]);
            } else if i > key.len() {
                assert(body[i] == v[i - key.len() - 1]);
            }
        }
    }
    assert(plain_value(v)) by {
        assert(word_true()[0] == 't');
        assert(word_false()[0] == 'f');
    }
    assert(body.last() != '\r') by {
        if v.len() > 0 {
            assert(body.last() == v.last());
        }
    }
    assert(strip_cr(body) == body);
    lemma_lines_state_line(s, body);
    if v.len() > 0 {
        assert(body.last() == v.last());
    }
    lemma_trim_plain(body);
    lemma_trim_plain(key);
    lemma_trim_plain(v);
    lemma_split_once_at(key, v, '=');
}

/// Loading what `save` wrote gives back the configuration, for values on one
/// line without surrounding blanks and a root that is not tilde-expanded.
pub proof fn law_config_reload(c: ConfigView, home: Option<Seq<char>>)
    requires
        survives_reload(c, home),
    ensures
        loaded_config(Some(saved_config(c)), home) == Some(c),
{
    assert(plain_key(key_root())) by {
        assert forall|i: int| 0 <= i < key_root().len() implies key_root()[i] != '=' && key_root()[i] != '\n' by {}
    }
    assert(plain_key(key_quick())) by {
        assert forall|i: int| 0 <= i < key_quick().len() implies key_quick()[i] != '=' && key_quick()[i] != '\n' by {}
    }
    assert(plain_key(key_daily())) by {
        assert forall|i: int| 0 <= i < key_daily().len() implies key_daily()[i] != '=' && key_daily()[i] != '\n' by {}
    }
    assert(plain_key(key_editor())) by {
        assert forall|i: int| 0 <= i < key_editor().len() implies key_editor()[i] != '=' && key_editor()[i] != '\n' by {}
    }
    assert(plain_key(key_fzf())) by {
        assert forall|i: int| 0 <= i < key_fzf().len() implies key_fzf()[i] != '=' && key_fzf()[i] != '\n' by {}
    }
    assert(plain_key(key_rg())) by {
        assert forall|i: int| 0 <= i < key_rg().len() implies key_rg()[i] != '=' && key_rg()[i] != '\n' by {}
    }
    assert(plain_key(key_yazi())) by {
        assert forall|i: int| 0 <= i < key_yazi().len() implies key_yazi()[i] != '=' && key_yazi()[i] != '\n' by {}
    }
    let l1 = config_line(key_root(), c.notez_root);
    let l2 = config_line(key_quick(), c.quick_notes_dir);
    let l3 = config_line(key_daily(), c.daily_logs_dir);
    let l4 = config_line(key_editor(), c.editor);
    let l5 = config_line(key_fzf(), bool_text(c.has_fzf));
    let l6 = config_line(key_rg(), bool_text(c.has_rg));
    let l7 = config_line(key_yazi(), bool_text(c.has_yazi));
    let s0 = Seq::<char>::empty();
    assert(lines_state(s0) == (Seq::<Seq<char>>::empty(), Seq::<char>::empty()));
    assert(s0 + l1 =~= l1);
    lemma_saved_line(s0, key_root(), c.notez_root);
    lemma_saved_line(l1, key_quick(), c.quick_notes_dir);
    lemma_saved_line(l1 + l2, key_daily(), c.daily_logs_dir);
    lemma_saved_line(l1 + l2 + l3, key_editor(), c.editor);
    lemma_saved_line(l1 + l2 + l3 + l4, key_fzf(), bool_text(c.has_fzf));
    lemma_saved_line(l1 + l2 + l3 + l4 + l5, key_rg(), bool_text(c.has_rg));
    lemma_saved_line(l1 + l2 + l3 + l4 + l5 + l6, key_yazi(), bool_text(c.has_yazi));
    let b1 = key_root() + seq!['='] + c.notez_root;
    let b2 = key_quick() + seq!['='] + c.quick_notes_dir;
    let b3 = key_daily() + seq!['='] + c.daily_logs_dir;
    let b4 = key_editor() + seq!['='] + c.editor;
    let b5 = key_fzf() + seq!['='] + bool_text(c.has_fzf);
    let b6 = key_rg() + seq!['='] + bool_text(c.has_rg);
    let b7 = key_yazi() + seq!['='] + bool_text(c.has_yazi);
    let ls = seq![b1, b2, b3, b4, b5, b6, b7];
    assert(saved_config(c) == l1 + l2 + l3 + l4 + l5 + l6 + l7);
    assert(lines(saved_config(c)) =~= ls);
    let c1 = apply_config_line(empty_config(), b1, home);
    let c2 = apply_config_line(c1, b2, home);
    let c3 = apply_config_line(c2, b3, home);
    let c4 = apply_config_line(c3, b4, home);
    let c5 = apply_config_line(c4, b5, home);
    let c6 = apply_config_line(c5, b6, home);
    let c7 = apply_config_line(c6, b7, home);
    assert(key_quick() != key_root() && key_daily() != key_root() && key_daily() != key_quick());
    assert(key_editor() != key_root() && key_editor() != key_quick() && key_editor() != key_daily());
    assert(key_fzf() != key_root() && key_fzf() != key_quick() && key_fzf() != key_daily());
    assert(key_fzf() != key_editor()) by { assert(key_fzf()[0] != key_editor()[0]); }
    assert(key_rg() != key_root() && key_rg() != key_quick() && key_rg() != key_daily());
    assert(key_rg() != key_editor()) by { assert(key_rg()[0] != key_editor()[0]); }
    assert(key_rg() != key_fzf());
    assert(key_yazi() != key_root() && key_yazi() != key_quick() && key_yazi() != key_daily());
    assert(key_yazi() != key_editor() && key_yazi() != key_fzf() && key_yazi() != key_rg());
    assert(word_false() != word_true());
    assert(c7 == c);
    assert(ls.drop_last() =~= seq![b1, b2, b3, b4, b5, b6]);
    assert(seq![b1, b2, b3, b4, b5, b6].drop_last() =~= seq![b1, b2, b3, b4, b5]);
    assert(seq![b1, b2, b3, b4, b5].drop_last() =~= seq![b1, b2, b3, b4]);
    assert(seq![b1, b2, b3, b4].drop_last() =~= seq![b1, b2, b3]);
    assert(seq![b1, b2, b3].drop_last() =~= seq![b1, b2]);
    assert(seq![b1, b2].drop_last() =~= seq![b1]);
    assert(seq![b1].drop_last() =~= Seq::<Seq<char>>::empty());
    assert(apply_config_lines(Seq::<Seq<char>>::empty(), home) == empty_config());
    assert(apply_config_lines(seq![b1], home) == c1);
    assert(apply_config_lines(seq![b1, b2], home) == c2);
    assert(apply_config_lines(seq![b1, b2, b3], home) == c3);
    assert(apply_config_lines(seq![b1, b2, b3, b4], home) == c4);
    assert(apply_config_lines(seq![b1, b2, b3, b4, b5], home) == c5);
    assert(apply_config_lines(seq![b1, b2, b3, b4, b5, b6], home) == c6);
    assert(apply_config_lines(ls, home) == c7);
}

} // verus!
