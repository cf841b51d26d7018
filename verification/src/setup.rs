//! The first-run setup wizard: the defaults it proposes, how a typed answer
//! is read, and the seven steps it walks through (with `b` going back), as a
//! state machine that the interactive front end drives one answer at a time.
use vstd::prelude::*;
use crate::config::{home_dir, expand_tilde, expanded, Config, ConfigView};
use crate::numbering::{sanitize_name, sanitized};
use crate::paths::{path_join, path_join_spec};
use crate::text::{append_chars, chars_of, remove_all, remove_all_chars, string_of, trim, trim_str};

verus! {

/// Width of the divider lines of the wizard.
pub const DIV_W: usize = 50;

/// Length of the rule drawn after a step title of `title_len` bytes:
/// `50 - (title_len + 16)`, or nothing when the title is that long.
pub fn step_rule_len(title_len: usize) -> (r: usize)
    requires
        title_len + 16 <= usize::MAX,
    ensures
        r == (if title_len + 16 >= DIV_W { 0 } else { DIV_W - (title_len + 16) }),
{
    DIV_W.saturating_sub(title_len + 16)
}

/// What a prompt yields: the trimmed line, or the default when the line is
/// blank or could not be read.
pub open spec fn prompt_result(line: Option<Seq<char>>, default: Seq<char>) -> Seq<char> {
    match line {
        Some(l) => if trim(l).len() == 0 { default } else { trim(l) },
        None => default,
    }
}

/// Read a prompt's answer: `line` is what the editor returned (`None` when it
/// failed), `default` what was offered.
pub fn prompt_value(line: Option<&str>, default: &str) -> (r: String)
    ensures
        r@ == prompt_result(crate::text::opt_str_view(line), default@),
{
    match line {
        Some(l) => {
            let t = trim_str(l);
            if t.as_str().unicode_len() == 0 {
                string_of(chars_of(default).as_slice())
            } else {
                t
            }
        },
        None => string_of(chars_of(default).as_slice()),
    }
}

/// The answer that steps back in the wizard.
pub open spec fn is_back(input: Seq<char>) -> bool {
    input == seq!['b']
}

/// Whether an answer is the single letter `b`.
pub fn is_back_answer(input: &str) -> (r: bool)
    ensures
        r == is_back(input@),
{
    let v = chars_of(input);
    let r = v.len() == 1 && v[0] == 'b';
    proof {
        if r {
            assert(input@ =~= seq!['b']);
        }
    }
    r
}

pub open spec fn quick_prefix() -> Seq<char> {
    seq!['0', '0', '_']
}

pub open spec fn daily_prefix() -> Seq<char> {
    seq!['0', '1', '_']
}

/// The proposed quick-notes name: the configured one without its `00_`
/// prefix (every occurrence removed), or `quick-notes`.
pub open spec fn default_quick_spec(existing: Option<ConfigView>) -> Seq<char> {
    match existing {
        Some(c) => remove_all(c.quick_notes_dir, quick_prefix()),
        None => seq!['q', 'u', 'i', 'c', 'k', '-', 'n', 'o', 't', 'e', 's'],
    }
}

/// The proposed daily-logs name: the configured one without `01_`, or
/// `daily-logs`.
pub open spec fn default_daily_spec(existing: Option<ConfigView>) -> Seq<char> {
    match existing {
        Some(c) => remove_all(c.daily_logs_dir, daily_prefix()),
        None => seq!['d', 'a', 'i', 'l', 'y', '-', 'l', 'o', 'g', 's'],
    }
}

pub open spec fn opt_config_view(c: Option<&Config>) -> Option<ConfigView> {
    match c {
        Some(c) => Some(c@),
        None => None,
    }
}

/// The quick-notes name the wizard proposes.
pub fn default_quick(existing: Option<&Config>) -> (r: String)
    ensures
        r@ == default_quick_spec(opt_config_view(existing)),
{
    match existing {
        Some(c) => {
            let p = vec!['0', '0', '_'];
            proof { assert(p@ =~= quick_prefix()); }
            string_of(remove_all_chars(chars_of(c.quick_notes_dir.as_str()).as_slice(), p.as_slice()).as_slice())
        },
        None => {
            let v = vec!['q', 'u', 'i', 'c', 'k', '-', 'n', 'o', 't', 'e', 's'];
            proof { assert(v@ =~= default_quick_spec(None)); }
            string_of(v.as_slice())
        },
    }
}

/// The daily-logs name the wizard proposes.
pub fn default_daily(existing: Option<&Config>) -> (r: String)
    ensures
        r@ == default_daily_spec(opt_config_view(existing)),
{
    match existing {
        Some(c) => {
            let p = vec!['0', '1', '_'];
            proof { assert(p@ =~= daily_prefix()); }
            string_of(remove_all_chars(chars_of(c.daily_logs_dir.as_str()).as_slice(), p.as_slice()).as_slice())
        },
        None => {
            let v = vec!['d', 'a', 'i', 'l', 'y', '-', 'l', 'o', 'g', 's'];
            proof { assert(v@ =~= default_daily_spec(None)); }
            string_of(v.as_slice())
        },
    }
}

pub open spec fn notez_word() -> Seq<char> {
    seq!['n', 'o', 't', 'e', 'z']
}

/// The proposed notes root: the configured one, else `notez` under the home
/// directory `home`; `None` when there is neither.
pub open spec fn default_root_spec(existing: Option<ConfigView>, home: Option<Seq<char>>) -> Option<Seq<char>> {
    match existing {
        Some(c) => Some(c.notez_root),
        None => match home {
            Some(h) => Some(path_join_spec(h, notez_word())),
            None => None,
        },
    }
}

/// The root the wizard proposes, given the home directory if there is one.
pub fn default_root_with(existing: Option<&Config>, home: Option<&str>) -> (r: Option<String>)
    ensures
        match r {
            Some(s) => default_root_spec(opt_config_view(existing), crate::text::opt_str_view(home)) == Some(s@),
            None => default_root_spec(opt_config_view(existing), crate::text::opt_str_view(home)) is None,
        },
{
    match existing {
        Some(c) => Some(c.notez_root.clone()),
        None => match home {
            Some(h) => {
                let w = vec!['n', 'o', 't', 'e', 'z'];
                proof { assert(w@ =~= notez_word()); }
                let s = path_join(h, string_of(w.as_slice()).as_str());
                Some(s)
            },
            None => None,
        },
    }
}

/// The proposed notes root: the configured one, or `notez` under the home
/// directory. `None` when there is neither a configuration nor a home
/// directory to put it in.
pub fn default_root(existing: Option<&Config>) -> (r: Option<String>)
    ensures
        existing.is_some() ==> r == Some(existing.unwrap().notez_root),
        existing.is_none() ==> match r {
            Some(s) => exists|h: Seq<char>| s@ == #[trigger] path_join_spec(h, notez_word()),
            None => true,
        },
{
    match existing {
        Some(c) => Some(c.notez_root.clone()),
        None => match home_dir() {
            Some(h) => {
                let r = default_root_with(None, Some(h.as_str()));
                proof {
                    assert(r is Some);
                    assert(r->0@ == path_join_spec(h@, notez_word()));
                }
                r
            },
            None => None,
        },
    }
}

/// The proposed editor: the configured one, else `$EDITOR`, else `vim`.
pub open spec fn default_editor_spec(existing: Option<ConfigView>, env_editor: Option<Seq<char>>) -> Seq<char> {
    match existing {
        Some(c) => c.editor,
        None => match env_editor {
            Some(e) => e,
            None => seq!['v', 'i', 'm'],
        },
    }
}

/// The editor the wizard proposes, given the value of `$EDITOR` if set.
pub fn default_editor(existing: Option<&Config>, env_editor: Option<&str>) -> (r: String)
    ensures
        r@ == default_editor_spec(opt_config_view(existing), crate::text::opt_str_view(env_editor)),
{
    match existing {
        Some(c) => c.editor.clone(),
        None => match env_editor {
            Some(e) => string_of(chars_of(e).as_slice()),
            None => {
                let v = vec!['v', 'i', 'm'];
                proof { assert(v@ =~= seq!['v', 'i', 'm']); }
                string_of(v.as_slice())
            },
        },
    }
}

/// The name given to the quick-notes directory: `00_` and the sanitised answer.
pub fn quick_dir_name(input: &str) -> (r: String)
    ensures
        r@ == quick_prefix() + sanitized(input@),
{
    let mut out = vec!['0', '0', '_'];
    let s = sanitize_name(input);
    append_chars(&mut out, chars_of(s.as_str()).as_slice());
    proof { assert(out@ =~= quick_prefix() + sanitized(input@)); }
    string_of(out.as_slice())
}

/// The name given to the daily-logs directory: `01_` and the sanitised answer.
pub fn daily_dir_name(input: &str) -> (r: String)
    ensures
        r@ == daily_prefix() + sanitized(input@),
{
    let mut out = vec!['0', '1', '_'];
    let s = sanitize_name(input);
    append_chars(&mut out, chars_of(s.as_str()).as_slice());
    proof { assert(out@ =~= daily_prefix() + sanitized(input@)); }
    string_of(out.as_slice())
}

// ---------------------------------------------------------------------------
// The wizard's steps
// ---------------------------------------------------------------------------

/// The seven steps of the wizard, and its end.
#[derive(PartialEq, Eq, Structural, Clone, Copy, Debug)]
pub enum SetupStep {
    Welcome,
    Root,
    Check,
    QuickName,
    DailyName,
    Tools,
    Confirm,
    Finished,
}

/// The wizard's state: where it stands and what was chosen so far.
pub struct SetupWizard {
    pub step: SetupStep,
    /// The default root proposed at the root step.
    pub default_root: String,
    pub root_dir: String,
    pub quick_name: String,
    pub daily_name: String,
    pub editor: String,
    pub has_fzf: bool,
    pub has_rg: bool,
    pub has_yazi: bool,
    /// Set at the tools step when no editor was found and one must be asked for.
    pub needs_editor: bool,
}

pub struct SetupView {
    pub step: SetupStep,
    pub default_root: Seq<char>,
    pub root_dir: Seq<char>,
    pub quick_name: Seq<char>,
    pub daily_name: Seq<char>,
    pub editor: Seq<char>,
    pub has_fzf: bool,
    pub has_rg: bool,
    pub has_yazi: bool,
    pub needs_editor: bool,
}

impl View for SetupWizard {
    type V = SetupView;

    open spec fn view(&self) -> SetupView {
        SetupView {
            step: self.step,
            default_root: self.default_root@,
            root_dir: self.root_dir@,
            quick_name: self.quick_name@,
            daily_name: self.daily_name@,
            editor: self.editor@,
            has_fzf: self.has_fzf,
            has_rg: self.has_rg,
            has_yazi: self.has_yazi,
            needs_editor: self.needs_editor,
        }
    }
}

/// The root that the answer at the root step names: the default when it is
/// kept, else the typed path, each with `~` expanded by some home directory.
pub open spec fn root_from(keep: bool, input: Seq<char>, default_root: Seq<char>, dir: Seq<char>) -> bool {
    if keep {
        exists|h: Option<Seq<char>>| dir == #[trigger] expanded(default_root, h)
    } else {
        exists|h: Option<Seq<char>>| dir == #[trigger] expanded(input, h)
    }
}

impl SetupWizard {
    /// A wizard at its first step, proposing `default_root`.
    pub fn new(default_root: String) -> (w: SetupWizard)
        ensures
            w@.step == SetupStep::Welcome,
            w@.default_root == default_root@,
            w@.root_dir.len() == 0,
            w@.quick_name.len() == 0,
            w@.daily_name.len() == 0,
            w@.editor.len() == 0,
            !w@.has_fzf && !w@.has_rg && !w@.has_yazi && !w@.needs_editor,
    {
        SetupWizard {
            step: SetupStep::Welcome,
            default_root,
            root_dir: String::new(),
            quick_name: String::new(),
            daily_name: String::new(),
            editor: String::new(),
            has_fzf: false,
            has_rg: false,
            has_yazi: false,
            needs_editor: false,
        }
    }

    /// Leave the welcome screen.
    pub fn welcome_done(&mut self)
        requires
            old(self)@.step == SetupStep::Welcome,
        ensures
            final(self)@ == (SetupView { step: SetupStep::Root, ..old(self)@ }),
    {
        self.step = SetupStep::Root;
    }

    /// The answer at the root step: whether the proposed location is kept,
    /// and otherwise the typed path. `b` goes back to the welcome screen
    /// (returning `false`); any other answer sets the root, with `~`
    /// expanded, and returns `true`.
    pub fn answer_root(&mut self, keep: bool, input: &str) -> (chosen: bool)
        requires
            old(self)@.step == SetupStep::Root,
        ensures
            chosen == (keep || !is_back(input@)),
            !chosen ==> final(self)@ == (SetupView { step: SetupStep::Welcome, ..old(self)@ }),
            chosen ==> final(self)@ == (SetupView { root_dir: final(self)@.root_dir, ..old(self)@ }),
            chosen ==> root_from(keep, input@, old(self)@.default_root, final(self)@.root_dir),
    {
        if !keep && is_back_answer(input) {
            self.step = SetupStep::Welcome;
            return false;
        }
        if keep {
            let r = expand_tilde(self.default_root.as_str());
            proof {
                let h = choose|h: Option<Seq<char>>| r@ == expanded(self.default_root@, h);
                assert(r@ == expanded(self.default_root@, h));
            }
            self.root_dir = r;
        } else {
            let r = expand_tilde(input);
            proof {
                let h = choose|h: Option<Seq<char>>| r@ == expanded(input@, h);
                assert(r@ == expanded(input@, h));
            }
            self.root_dir = r;
        }
        true
    }

    /// After the root was chosen: whether the folder exists, and if not
    /// whether the user agreed to create it. Declining keeps the root step.
    pub fn root_checked(&mut self, present: bool, create: bool)
        requires
            old(self)@.step == SetupStep::Root,
        ensures
            final(self)@ == (SetupView {
                step: if present || create { SetupStep::Check } else { SetupStep::Root },
                ..old(self)@
            }),
    {
        if present || create {
            self.step = SetupStep::Check;
        }
    }

    /// The conflict check: keeping the existing numbered folders goes on,
    /// picking another folder returns to the root step.
    pub fn answer_check(&mut self, keep_going: bool)
        requires
            old(self)@.step == SetupStep::Check,
        ensures
            final(self)@ == (SetupView {
                step: if keep_going { SetupStep::QuickName } else { SetupStep::Root },
                ..old(self)@
            }),
    {
        if keep_going {
            self.step = SetupStep::QuickName;
        } else {
            self.step = SetupStep::Root;
        }
    }

    /// The quick-notes name: `b` goes back to the check, anything else names
    /// the folder `00_` + the sanitised answer.
    pub fn answer_quick(&mut self, input: &str)
        requires
            old(self)@.step == SetupStep::QuickName,
        ensures
            is_back(input@) ==> final(self)@ == (SetupView { step: SetupStep::Check, ..old(self)@ }),
            !is_back(input@) ==> final(self)@ == (SetupView {
                step: SetupStep::DailyName,
                quick_name: quick_prefix() + sanitized(input@),
                ..old(self)@
            }),
    {
        if is_back_answer(input) {
            self.step = SetupStep::Check;
        } else {
            self.quick_name = quick_dir_name(input);
            self.step = SetupStep::DailyName;
        }
    }

    /// The daily-logs name: `b` goes back, anything else names the folder
    /// `01_` + the sanitised answer.
    pub fn answer_daily(&mut self, input: &str)
        requires
            old(self)@.step == SetupStep::DailyName,
        ensures
            is_back(input@) ==> final(self)@ == (SetupView { step: SetupStep::QuickName, ..old(self)@ }),
            !is_back(input@) ==> final(self)@ == (SetupView {
                step: SetupStep::Tools,
                daily_name: daily_prefix() + sanitized(input@),
                ..old(self)@
            }),
    {
        if is_back_answer(input) {
            self.step = SetupStep::QuickName;
        } else {
            self.daily_name = daily_dir_name(input);
            self.step = SetupStep::Tools;
        }
    }

    /// What the tools step found: the editor (`$EDITOR`, else the proposed
    /// one) and which optional tools are installed. Without an editor the
    /// step stays, asking for one.
    pub fn tools_found(&mut self, editor: String, fzf: bool, rg: bool, yazi: bool)
        requires
            old(self)@.step == SetupStep::Tools,
        ensures
            final(self)@ == (SetupView {
                step: if editor@.len() == 0 { SetupStep::Tools } else { SetupStep::Confirm },
                editor: editor@,
                has_fzf: fzf,
                has_rg: rg,
                has_yazi: yazi,
                needs_editor: editor@.len() == 0,
                ..old(self)@
            }),
    {
        let empty = editor.as_str().unicode_len() == 0;
        self.editor = editor;
        self.has_fzf = fzf;
        self.has_rg = rg;
        self.has_yazi = yazi;
        self.needs_editor = empty;
        if !empty {
            self.step = SetupStep::Confirm;
        }
    }

    /// The editor typed when none was found: `b` goes back to the daily-logs
    /// step, anything else is the editor.
    pub fn answer_editor(&mut self, input: &str)
        requires
            old(self)@.step == SetupStep::Tools,
            old(self)@.needs_editor,
        ensures
            is_back(input@) ==> final(self)@ == (SetupView { step: SetupStep::DailyName, ..old(self)@ }),
            !is_back(input@) ==> final(self)@ == (SetupView {
                step: SetupStep::Confirm,
                editor: input@,
                needs_editor: false,
                ..old(self)@
            }),
    {
        if is_back_answer(input) {
            self.step = SetupStep::DailyName;
        } else {
            self.editor = string_of(chars_of(input).as_slice());
            self.needs_editor = false;
            self.step = SetupStep::Confirm;
        }
    }

    /// The final confirmation: yes ends the wizard with the configuration to
    /// save; no returns to the root step.
    pub fn answer_confirm(&mut self, yes: bool) -> (r: Option<Config>)
        requires
            old(self)@.step == SetupStep::Confirm,
        ensures
            !yes ==> r is None && final(self)@ == (SetupView { step: SetupStep::Root, ..old(self)@ }),
            yes ==> final(self)@ == (SetupView { step: SetupStep::Finished, ..old(self)@ }),
            yes ==> (r matches Some(c) && c@ == (ConfigView {
                notez_root: old(self)@.root_dir,
                quick_notes_dir: old(self)@.quick_name,
                daily_logs_dir: old(self)@.daily_name,
                editor: old(self)@.editor,
                has_fzf: old(self)@.has_fzf,
                has_rg: old(self)@.has_rg,
                has_yazi: old(self)@.has_yazi,
            })),
    {
        if !yes {
            self.step = SetupStep::Root;
            return None;
        }
        self.step = SetupStep::Finished;
        Some(Config {
            notez_root: self.root_dir.clone(),
            quick_notes_dir: self.quick_name.clone(),
            daily_logs_dir: self.daily_name.clone(),
            editor: self.editor.clone(),
            has_fzf: self.has_fzf,
            has_rg: self.has_rg,
            has_yazi: self.has_yazi,
        })
    }
}

} // verus!
