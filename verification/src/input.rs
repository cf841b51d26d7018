//! Keyboard input of the interactive views: the keys they react to, the
//! vim-style `:` command line, and editing a text buffer at a byte cursor
//! that always stays on a character boundary.
use vstd::prelude::*;
use vstd::utf8::{encode_scalar, encode_utf8, is_char_boundary};
use crate::text::{chars_of, string_of};

verus! {

broadcast use vstd::utf8::encode_utf8_valid_utf8;

/// A key press, as far as the views tell keys apart.
#[derive(PartialEq, Eq, Structural, Clone, Copy, Debug)]
pub enum Key {
    Char(char),
    Enter,
    Esc,
    Backspace,
    Left,
    Right,
    Up,
    Down,
    Other,
}

/// What the mouse did.
#[derive(PartialEq, Eq, Structural, Clone, Copy, Debug)]
pub enum MouseKind {
    ScrollDown,
    ScrollUp,
    LeftDown,
    LeftDrag,
    LeftUp,
    Moved,
    Other,
}

/// A mouse event at a terminal cell.
#[derive(PartialEq, Eq, Structural, Clone, Copy, Debug)]
pub struct Mouse {
    pub kind: MouseKind,
    pub column: u16,
    pub row: u16,
}

/// A rectangle of terminal cells.
#[derive(PartialEq, Eq, Structural, Clone, Copy, Debug)]
pub struct Area {
    pub x: u16,
    pub y: u16,
    pub width: u16,
    pub height: u16,
}

/// `a + b`, or `u16::MAX` when that overflows.
pub open spec fn sat_add16(a: u16, b: u16) -> u16 {
    if a + b <= u16::MAX {
        (a + b) as u16
    } else {
        u16::MAX
    }
}

/// `a - b`, or 0 when that underflows.
pub open spec fn sat_sub16(a: u16, b: u16) -> u16 {
    if a >= b {
        (a - b) as u16
    } else {
        0
    }
}

/// The cell lies inside the area (the area's far edges computed saturating).
pub open spec fn in_area(a: Area, column: u16, row: u16) -> bool {
    a.y <= row && row < sat_add16(a.y, a.height) && a.x <= column && column < sat_add16(a.x, a.width)
}

/// Whether a cell lies inside an area.
pub fn cell_in_area(a: Area, column: u16, row: u16) -> (r: bool)
    ensures
        r == in_area(a, column, row),
{
    row >= a.y && row < a.y.saturating_add(a.height) && column >= a.x && column < a.x.saturating_add(a.width)
}

// ---------------------------------------------------------------------------
// The `:` command line
// ---------------------------------------------------------------------------

/// The view of an optional string.
pub open spec fn opt_string_seq(o: Option<String>) -> Option<Seq<char>> {
    match o {
        Some(s) => Some(s@),
        None => None,
    }
}

/// A key on the command line: `:` opens it; once open, Enter completes the
/// command, Esc drops it, Backspace deletes the last character (closing the
/// line when nothing is left) and other characters are appended.  Returns
/// (open, buffer, completed command).
pub open spec fn vim_step(active: bool, buffer: Seq<char>, key: Key) -> (bool, Seq<char>, Option<Seq<char>>) {
    if !active {
        if key == Key::Char(':') {
            (true, seq![':'], None)
        } else {
            (active, buffer, None)
        }
    } else {
        match key {
            Key::Enter => (false, Seq::empty(), Some(buffer)),
            Key::Esc => (false, Seq::empty(), None),
            Key::Backspace => {
                let b = if buffer.len() > 0 {
                    buffer.drop_last()
                } else {
                    buffer
                };
                (b.len() > 0, b, None)
            },
            Key::Char(c) => (true, buffer.push(c), None),
            _ => (active, buffer, None),
        }
    }
}

/// Tracks vim-style command input (e.g., `:wq`, `:qa`).
pub struct VimCommandMode {
    pub active: bool,
    pub buffer: String,
}

impl VimCommandMode {
    /// An inactive command line with an empty buffer.
    pub fn new() -> (r: Self)
        ensures
            !r.active,
            r.buffer@ == Seq::<char>::empty(),
    {
        VimCommandMode { active: false, buffer: String::new() }
    }

    /// Process a key event. Returns Some(command) if a command was completed (Enter pressed).
    pub fn handle_key(&mut self, key: Key) -> (r: Option<String>)
        ensures
            (final(self).active, final(self).buffer@, opt_string_seq(r)) == vim_step(old(self).active, old(self).buffer@, key),
    {
        if !self.active {
            if key == Key::Char(':') {
                self.active = true;
                let colon = vec![':'];
                proof {
                    assert(colon@ =~= seq![':']);
                }
                self.buffer = string_of(colon.as_slice());
                return None;
            }
            return None;
        }
        match key {
            Key::Enter => {
                let cmd = string_of(chars_of(self.buffer.as_str()).as_slice());
                self.active = false;
                self.buffer = String::new();
                Some(cmd)
            },
            Key::Esc => {
                self.active = false;
                self.buffer = String::new();
                None
            },
            Key::Backspace => {
                let mut b = chars_of(self.buffer.as_str());
                if b.len() > 0 {
                    b.pop();
                }
                self.buffer = string_of(b.as_slice());
                if b.len() == 0 {
                    self.active = false;
                }
                None
            },
            Key::Char(c) => {
                let mut b = chars_of(self.buffer.as_str());
                b.push(c);
                self.buffer = string_of(b.as_slice());
                None
            },
            _ => None,
        }
    }

    /// The commands that quit a view.
    pub open spec fn quit_spec(cmd: Seq<char>) -> bool {
        cmd == seq![':', 'w', 'q'] || cmd == seq![':', 'q', 'a'] || cmd == seq![':', 'q'] || cmd == seq![
            ':',
            'q',
            '!',
        ]
    }

    /// Check if a completed command means "quit".
    pub fn is_quit(cmd: &str) -> (r: bool)
        ensures
            r == Self::quit_spec(cmd@),
    {
        let c = chars_of(cmd);
        let r = if c.len() == 2 {
            c[0] == ':' && c[1] == 'q'
        } else if c.len() == 3 {
            c[0] == ':' && ((c[1] == 'w' && c[2] == 'q') || (c[1] == 'q' && c[2] == 'a') || (c[1] == 'q'
                && c[2] == '!'))
        } else {
            false
        };
        proof {
            if r {
                if c@.len() == 2 {
                    assert(c@ =~= seq![':', 'q']);
                } else if c@[1] == 'w' {
                    assert(c@ =~= seq![':', 'w', 'q']);
                } else if c@[2] == 'a' {
                    assert(c@ =~= seq![':', 'q', 'a']);
                } else {
                    assert(c@ =~= seq![':', 'q', '!']);
                }
            }
        }
        r
    }
}

// ---------------------------------------------------------------------------
// Byte cursors on UTF-8 text
// ---------------------------------------------------------------------------

/// The number of bytes that the first `k` characters of `s` take in UTF-8.
pub open spec fn prefix_bytes(s: Seq<char>, k: int) -> int {
    encode_utf8(s.take(k)).len() as int
}

/// Encoding a concatenation concatenates the encodings.
pub proof fn lemma_encode_concat(a: Seq<char>, b: Seq<char>)
    ensures
        encode_utf8(a + b) == encode_utf8(a) + encode_utf8(b),
    decreases a.len(),
{
    if a.len() == 0 {
        assert(a + b =~= b);
        assert(encode_utf8(a) =~= Seq::<u8>::empty());
        assert(encode_utf8(a) + encode_utf8(b) =~= encode_utf8(b));
    } else {
        assert((a + b).drop_first() =~= a.drop_first() + b);
        assert((a + b)[0] == a[0]);
        lemma_encode_concat(a.drop_first(), b);
        assert(encode_utf8(a + b) =~= encode_scalar(a[0] as u32) + (encode_utf8(a.drop_first()) + encode_utf8(b)));
    }
}

/// A single character encodes as its scalar.
pub proof fn lemma_encode_single(c: char)
    ensures
        encode_utf8(seq![c]) == encode_scalar(c as u32),
{
    assert(seq![c].drop_first() =~= Seq::<char>::empty());
    assert(encode_utf8(Seq::<char>::empty()) =~= Seq::<u8>::empty());
    assert(encode_utf8(seq![c]) =~= encode_scalar(c as u32) + encode_utf8(Seq::<char>::empty()));
}

/// The encoded length of one more character.
pub proof fn lemma_prefix_bytes_step(s: Seq<char>, k: int)
    requires
        0 <= k < s.len(),
    ensures
        prefix_bytes(s, k + 1) == prefix_bytes(s, k) + encode_scalar(s[k] as u32).len(),
{
    assert(s.take(k + 1) =~= s.take(k) + seq![s[k]]);
    lemma_encode_concat(s.take(k), seq![s[k]]);
    lemma_encode_single(s[k]);
}

/// A character takes one to four bytes.
pub proof fn lemma_scalar_len(c: char)
    ensures
        1 <= encode_scalar(c as u32).len() <= 4,
{
    vstd::utf8::char_is_scalar(c);
}

/// Prefix lengths grow with the number of characters and stay within the
/// whole encoding.
pub proof fn lemma_prefix_bytes_mono(s: Seq<char>, j: int, k: int)
    requires
        0 <= j <= k <= s.len(),
    ensures
        prefix_bytes(s, j) <= prefix_bytes(s, k),
        j < k ==> prefix_bytes(s, j) < prefix_bytes(s, k),
        prefix_bytes(s, k) <= encode_utf8(s).len(),
    decreases k - j,
{
    if j < k {
        lemma_prefix_bytes_mono(s, j, k - 1);
        lemma_prefix_bytes_step(s, k - 1);
        lemma_scalar_len(s[k - 1]);
    }
    assert(s =~= s.take(k) + s.skip(k));
    lemma_encode_concat(s.take(k), s.skip(k));
}

/// A byte index is a character boundary exactly when it is the encoded
/// length of some prefix of the characters.
pub proof fn lemma_boundary_prefix(s: Seq<char>, b: int)
    ensures
        is_char_boundary(encode_utf8(s), b) <==> exists|k: int| 0 <= k <= s.len() && #[trigger] prefix_bytes(s, k) == b,
    decreases s.len(),
{
    let bytes = encode_utf8(s);
    assert(s.take(0) =~= Seq::<char>::empty());
    if b == 0 {
        assert(prefix_bytes(s, 0) == 0);
    } else if b < 0 || bytes.len() < b {
        if exists|k: int| 0 <= k <= s.len() && #[trigger] prefix_bytes(s, k) == b {
            let k = choose|k: int| 0 <= k <= s.len() && #[trigger] prefix_bytes(s, k) == b;
            lemma_prefix_bytes_mono(s, 0, k);
        }
    } else {
        assert(s.len() > 0);
        vstd::utf8::encode_utf8_first_scalar(s);
        let l = encode_scalar(s[0] as u32).len() as int;
        let rest = s.drop_first();
        assert(vstd::utf8::pop_first_scalar(bytes) =~= encode_utf8(rest));
        lemma_boundary_prefix(rest, b - l);
        assert forall|k: int| 1 <= k <= s.len() implies #[trigger] prefix_bytes(s, k) == l + prefix_bytes(rest, k - 1) by {
            assert(s.take(k) =~= seq![s[0]] + rest.take(k - 1));
            lemma_encode_concat(seq![s[0]], rest.take(k - 1));
            lemma_encode_single(s[0]);
        }
        if exists|k: int| 0 <= k <= s.len() && #[trigger] prefix_bytes(s, k) == b {
            let k = choose|k: int| 0 <= k <= s.len() && #[trigger] prefix_bytes(s, k) == b;
            assert(k >= 1);
            assert(prefix_bytes(rest, k - 1) == b - l);
        }
        if exists|k: int| 0 <= k <= rest.len() && #[trigger] prefix_bytes(rest, k) == b - l {
            let k = choose|k: int| 0 <= k <= rest.len() && #[trigger] prefix_bytes(rest, k) == b - l;
            assert(prefix_bytes(s, k + 1) == b);
        }
    }
}

/// The last character boundary at or before byte `i` (0 at the latest).
pub open spec fn boundary_at_or_before(b: Seq<u8>, i: int) -> int
    decreases i,
{
    if i <= 0 {
        0
    } else if is_char_boundary(b, i) {
        i
    } else {
        boundary_at_or_before(b, i - 1)
    }
}

/// The first character boundary at or after byte `i`, at most `len`.
pub open spec fn boundary_at_or_after(b: Seq<u8>, i: int, len: int) -> int
    decreases len - i,
{
    if i >= len {
        len
    } else if is_char_boundary(b, i) {
        i
    } else {
        boundary_at_or_after(b, i + 1, len)
    }
}

/// Where the cursor lands one character to the left of byte `pos`.
pub open spec fn prev_boundary(b: Seq<u8>, pos: int) -> int {
    if pos <= 0 {
        0
    } else {
        boundary_at_or_before(b, pos - 1)
    }
}

/// Where the cursor lands one character to the right of byte `pos`.
pub open spec fn next_boundary(b: Seq<u8>, pos: int) -> int {
    if pos >= b.len() {
        b.len() as int
    } else {
        boundary_at_or_after(b, pos + 1, b.len() as int)
    }
}

/// Move a byte cursor left by one char in `s`. Always lands on a UTF-8 boundary,
/// so callers can safely pass the result to `split_at` / `insert` / `remove`.
pub fn prev_char_boundary(s: &str, pos: usize) -> (r: usize)
    ensures
        r == prev_boundary(encode_utf8(s@), pos as int),
        pos == 0 ==> r == 0,
        pos > 0 ==> r < pos && (r == 0 || is_char_boundary(encode_utf8(s@), r as int)),
        forall|j: int| r < j < pos ==> !is_char_boundary(encode_utf8(s@), j),
{
    if pos == 0 {
        return 0;
    }
    let mut i = pos - 1;
    while i > 0 && !s.is_char_boundary(i)
        invariant
            i < pos,
            forall|j: int| i < j < pos ==> !is_char_boundary(encode_utf8(s@), j),
            boundary_at_or_before(encode_utf8(s@), pos - 1) == boundary_at_or_before(encode_utf8(s@), i as int),
        decreases i,
    {
        i = i - 1;
    }
    i
}

/// Move a byte cursor right by one char in `s`. Always lands on a UTF-8 boundary.
pub fn next_char_boundary(s: &str, pos: usize) -> (r: usize)
    requires
        encode_utf8(s@).len() <= usize::MAX,
    ensures
        r == next_boundary(encode_utf8(s@), pos as int),
        pos >= encode_utf8(s@).len() ==> r == encode_utf8(s@).len(),
        pos < encode_utf8(s@).len() ==> pos < r <= encode_utf8(s@).len() && is_char_boundary(encode_utf8(s@), r as int),
        forall|j: int| pos < j < r ==> !is_char_boundary(encode_utf8(s@), j),
{
    let len = s.len();
    if pos >= len {
        return len;
    }
    let mut i = pos + 1;
    while i < len && !s.is_char_boundary(i)
        invariant
            pos < i <= len,
            len == encode_utf8(s@).len(),
            forall|j: int| pos < j < i ==> !is_char_boundary(encode_utf8(s@), j),
            boundary_at_or_after(encode_utf8(s@), pos + 1, len as int) == boundary_at_or_after(encode_utf8(s@), i as int, len as int),
        decreases len - i,
    {
        i = i + 1;
    }
    proof {
        if i == len {
            lemma_boundary_prefix(s@, len as int);
            assert(s@.take(s@.len() as int) =~= s@);
            assert(prefix_bytes(s@, s@.len() as int) == len);
        }
    }
    i
}

/// The number of bytes `c` takes in UTF-8 (`char::len_utf8`).
pub fn char_len_utf8(c: char) -> (r: usize)
    ensures
        r == encode_scalar(c as u32).len(),
{
    proof {
        vstd::utf8::char_is_scalar(c);
    }
    let u = c as u32;
    if u < 0x80 {
        1
    } else if u < 0x800 {
        2
    } else if u < 0x10000 {
        3
    } else {
        4
    }
}

/// The character index whose prefix takes `cursor` bytes, for a cursor on
/// a character boundary.
pub(crate) fn char_index_of(s: &[char], cursor: usize) -> (k: usize)
    requires
        is_char_boundary(encode_utf8(s@), cursor as int),
    ensures
        k <= s@.len(),
        prefix_bytes(s@, k as int) == cursor,
{
    proof {
        lemma_boundary_prefix(s@, cursor as int);
        assert(s@.take(0) =~= Seq::<char>::empty());
    }
    let ghost target = choose|k: int| 0 <= k <= s@.len() && #[trigger] prefix_bytes(s@, k) == cursor;
    let mut k: usize = 0;
    let mut b: usize = 0;
    while b < cursor
        invariant
            k <= target,
            0 <= target <= s@.len(),
            prefix_bytes(s@, target) == cursor,
            b == prefix_bytes(s@, k as int),
        decreases cursor - b,
    {
        proof {
            if k == target {
                assert(false);
            }
            lemma_prefix_bytes_step(s@, k as int);
            lemma_prefix_bytes_mono(s@, k + 1, target);
        }
        b = b + char_len_utf8(s[k]);
        k = k + 1;
    }
    proof {
        if k < target {
            lemma_prefix_bytes_mono(s@, k as int, target);
        }
    }
    k
}

/// The text after typing `c` at the character boundary `cursor`.
pub open spec fn inserted_at(s: Seq<char>, cursor: int, c: char) -> Seq<char> {
    let k = choose|k: int| 0 <= k <= s.len() && #[trigger] prefix_bytes(s, k) == cursor;
    s.take(k).push(c) + s.skip(k)
}

/// The text after deleting the character that starts at byte `at`.
pub open spec fn removed_at(s: Seq<char>, at: int) -> Seq<char> {
    let k = choose|k: int| 0 <= k <= s.len() && #[trigger] prefix_bytes(s, k) == at;
    s.take(k) + s.skip(k + 1)
}

proof fn lemma_prefix_unique(s: Seq<char>, j: int, k: int)
    requires
        0 <= j <= s.len(),
        0 <= k <= s.len(),
        prefix_bytes(s, j) == prefix_bytes(s, k),
    ensures
        j == k,
{
    if j < k {
        lemma_prefix_bytes_mono(s, j, k);
    } else if k < j {
        lemma_prefix_bytes_mono(s, k, j);
    }
}

/// Type `c` at the byte cursor; returns the cursor just after it.
pub fn insert_at_cursor(buf: &mut String, cursor: usize, c: char) -> (r: usize)
    requires
        is_char_boundary(encode_utf8(old(buf)@), cursor as int),
        encode_utf8(old(buf)@).len() + 4 <= usize::MAX,
    ensures
        final(buf)@ == inserted_at(old(buf)@, cursor as int, c),
        r == cursor + encode_scalar(c as u32).len(),
        is_char_boundary(encode_utf8(final(buf)@), r as int),
{
    let s = chars_of(buf.as_str());
    let k = char_index_of(s.as_slice(), cursor);
    proof {
        lemma_boundary_prefix(s@, cursor as int);
        let kk = choose|kk: int| 0 <= kk <= s@.len() && #[trigger] prefix_bytes(s@, kk) == cursor;
        lemma_prefix_unique(s@, k as int, kk);
    }
    let mut out: Vec<char> = Vec::new();
    let mut i: usize = 0;
    while i < k
        invariant
            k <= s@.len(),
            i <= k,
            out@ == s@.take(i as int),
        decreases k - i,
    {
        out.push(s[i]);
        proof {
            assert(s@.take(i + 1) =~= s@.take(i as int).push(s@[i as int]));
        }
        i = i + 1;
    }
    out.push(c);
    let mut j: usize = k;
    while j < s.len()
        invariant
            k <= j <= s@.len(),
            out@ == s@.take(k as int).push(c) + s@.subrange(k as int, j as int),
        decreases s.len() - j,
    {
        out.push(s[j]);
        proof {
            assert(s@.subrange(k as int, j + 1) =~= s@.subrange(k as int, j as int).push(s@[j as int]));
        }
        j = j + 1;
    }
    proof {
        assert(s@.subrange(k as int, s@.len() as int) =~= s@.skip(k as int));
    }
    let n = char_len_utf8(c);
    proof {
        lemma_scalar_len(c);
        let t = out@;
        assert(t.take(k + 1) =~= s@.take(k as int).push(c));
        assert(s@.take(k as int).push(c) =~= s@.take(k as int) + seq![c]);
        lemma_encode_concat(s@.take(k as int), seq![c]);
        lemma_encode_single(c);
        assert(prefix_bytes(t, k + 1) == cursor + n);
        lemma_boundary_prefix(t, cursor + n);
    }
    *buf = string_of(out.as_slice());
    cursor + n
}

/// Delete the character before the byte cursor (which is on a boundary
/// after the first character); returns the cursor where that character began.
pub fn remove_before_cursor(buf: &mut String, cursor: usize) -> (r: usize)
    requires
        cursor > 0,
        is_char_boundary(encode_utf8(old(buf)@), cursor as int),
    ensures
        r == prev_boundary(encode_utf8(old(buf)@), cursor as int),
        r < cursor,
        is_char_boundary(encode_utf8(old(buf)@), r as int),
        forall|j: int| r < j < cursor ==> !is_char_boundary(encode_utf8(old(buf)@), j),
        final(buf)@ == removed_at(old(buf)@, r as int),
        is_char_boundary(encode_utf8(final(buf)@), r as int),
{
    let prev = prev_char_boundary(buf.as_str(), cursor);
    let s = chars_of(buf.as_str());
    proof {
        lemma_boundary_prefix(s@, prev as int);
        lemma_boundary_prefix(s@, cursor as int);
        let kc = choose|kc: int| 0 <= kc <= s@.len() && #[trigger] prefix_bytes(s@, kc) == cursor;
        assert(s@.take(0) =~= Seq::<char>::empty());
        assert(kc > 0);
        lemma_prefix_bytes_step(s@, kc - 1);
        lemma_scalar_len(s@[kc - 1]);
        assert forall|j: int| prefix_bytes(s@, kc - 1) < j < cursor implies !is_char_boundary(encode_utf8(s@), j) by {
            lemma_boundary_prefix(s@, j);
            if exists|m: int| 0 <= m <= s@.len() && #[trigger] prefix_bytes(s@, m) == j {
                let m = choose|m: int| 0 <= m <= s@.len() && #[trigger] prefix_bytes(s@, m) == j;
                if m < kc - 1 {
                    lemma_prefix_bytes_mono(s@, m, kc - 1);
                } else if m > kc - 1 {
                    lemma_prefix_bytes_mono(s@, kc, m);
                }
            }
        }
        lemma_boundary_prefix(s@, prefix_bytes(s@, kc - 1));
        assert(prev == prefix_bytes(s@, kc - 1));
    }
    let k = char_index_of(s.as_slice(), prev);
    proof {
        let kk = choose|kk: int| 0 <= kk <= s@.len() && #[trigger] prefix_bytes(s@, kk) == prev;
        lemma_prefix_unique(s@, k as int, kk);
        let kc = choose|kc: int| 0 <= kc <= s@.len() && #[trigger] prefix_bytes(s@, kc) == cursor;
        lemma_prefix_bytes_step(s@, kc - 1);
        lemma_prefix_unique(s@, k as int, kc - 1);
    }
    let mut out: Vec<char> = Vec::new();
    let mut i: usize = 0;
    while i < k
        invariant
            k < s@.len(),
            i <= k,
            out@ == s@.take(i as int),
        decreases k - i,
    {
        out.push(s[i]);
        proof {
            assert(s@.take(i + 1) =~= s@.take(i as int).push(s@[i as int]));
        }
        i = i + 1;
    }
    assert(k < s.len());
    let mut j: usize = k + 1;
    while j < s.len()
        invariant
            k < j <= s@.len(),
            out@ == s@.take(k as int) + s@.subrange(k + 1, j as int),
        decreases s.len() - j,
    {
        out.push(s[j]);
        proof {
            assert(s@.subrange(k + 1, j + 1) =~= s@.subrange(k + 1, j as int).push(s@[j as int]));
        }
        j = j + 1;
    }
    proof {
        assert(s@.subrange(k + 1, s@.len() as int) =~= s@.skip(k + 1));
        assert(out@.take(k as int) =~= s@.take(k as int));
        lemma_boundary_prefix(out@, prev as int);
        assert(prefix_bytes(out@, k as int) == prev);
    }
    *buf = string_of(out.as_slice());
    prev
}


// ---------------------------------------------------------------------------
// The filter field
// ---------------------------------------------------------------------------

/// The filter field: whether it is being typed in, its text, and the byte
/// cursor.
pub struct FieldView {
    pub typing: bool,
    pub text: Seq<char>,
    pub cursor: usize,
}

/// What a key does to the filter field while it is being typed in: Enter
/// keeps the text and Esc clears it, both ending the typing with the cursor
/// at 0; Left / Right move the cursor by a character; Backspace deletes
/// the character before the cursor, or at the start clears the text and
/// ends the typing; a character is typed at the cursor.
pub open spec fn search_key_spec(f: FieldView, key: Key) -> FieldView {
    let b = encode_utf8(f.text);
    match key {
        Key::Enter => FieldView { typing: false, cursor: 0, ..f },
        Key::Esc => FieldView { typing: false, cursor: 0, text: Seq::empty() },
        Key::Left => FieldView { cursor: prev_boundary(b, f.cursor as int) as usize, ..f },
        Key::Right => FieldView { cursor: next_boundary(b, f.cursor as int) as usize, ..f },
        Key::Backspace => if f.cursor > 0 {
            let p = prev_boundary(b, f.cursor as int);
            FieldView { text: removed_at(f.text, p), cursor: p as usize, ..f }
        } else {
            FieldView { text: Seq::empty(), typing: false, ..f }
        },
        Key::Char(c) => FieldView {
            text: inserted_at(f.text, f.cursor as int, c),
            cursor: (f.cursor + encode_scalar(c as u32).len()) as usize,
            ..f
        },
        _ => f,
    }
}

/// What an editing key does to a text field in the prompt modes: Left /
/// Right move the cursor, Backspace deletes before the cursor (nothing at
/// the start), a character is typed at the cursor; other keys change
/// nothing here.
pub open spec fn edit_key_spec(text: Seq<char>, cursor: usize, key: Key) -> (Seq<char>, usize) {
    let b = encode_utf8(text);
    match key {
        Key::Left => (text, prev_boundary(b, cursor as int) as usize),
        Key::Right => (text, next_boundary(b, cursor as int) as usize),
        Key::Backspace => if cursor > 0 {
            let p = prev_boundary(b, cursor as int);
            (removed_at(text, p), p as usize)
        } else {
            (text, cursor)
        },
        Key::Char(c) => (inserted_at(text, cursor as int, c), (cursor + encode_scalar(c as u32).len()) as usize),
        _ => (text, cursor),
    }
}

/// A field's cursor sits on a character boundary, with room to type.
pub open spec fn field_ok(text: Seq<char>, cursor: usize) -> bool {
    &&& is_char_boundary(encode_utf8(text), cursor as int)
    &&& encode_utf8(text).len() + 4 <= usize::MAX
}

proof fn lemma_prev_boundary_is_boundary(b: Seq<u8>, i: int)
    requires
        vstd::utf8::valid_utf8(b),
    ensures
        is_char_boundary(b, boundary_at_or_before(b, i)),
    decreases i,
{
    if i > 0 && !is_char_boundary(b, i) {
        lemma_prev_boundary_is_boundary(b, i - 1);
    }
}

/// The key changes the text at the cursor (typing, or deleting before a
/// cursor past the start).
pub open spec fn edits_at_cursor(key: Key, cursor: usize) -> bool {
    key is Char || (key == Key::Backspace && cursor > 0)
}

proof fn lemma_next_boundary_is_boundary(s: Seq<char>, i: int)
    ensures
        is_char_boundary(encode_utf8(s), boundary_at_or_after(encode_utf8(s), i, encode_utf8(s).len() as int)),
    decreases encode_utf8(s).len() - i,
{
    let b = encode_utf8(s);
    if i >= b.len() {
        lemma_boundary_prefix(s, b.len() as int);
        assert(s.take(s.len() as int) =~= s);
        assert(prefix_bytes(s, s.len() as int) == b.len());
    } else if !is_char_boundary(b, i) {
        lemma_next_boundary_is_boundary(s, i + 1);
    }
}

/// Apply an editing key to a text field.
pub fn edit_key(text: &mut String, cursor: &mut usize, key: Key)
    requires
        encode_utf8(old(text)@).len() + 4 <= usize::MAX,
        edits_at_cursor(key, *old(cursor)) ==> is_char_boundary(encode_utf8(old(text)@), *old(cursor) as int),
    ensures
        (final(text)@, *final(cursor)) == edit_key_spec(old(text)@, *old(cursor), key),
        key is Left || key is Right || edits_at_cursor(key, *old(cursor)) ==> is_char_boundary(encode_utf8(final(text)@), *final(cursor) as int),
{
    match key {
        Key::Left => {
            let p = prev_char_boundary(text.as_str(), *cursor);
            proof {
                if *cursor > 0 {
                    lemma_prev_boundary_is_boundary(encode_utf8(text@), *cursor - 1);
                }
            }
            *cursor = p;
        },
        Key::Right => {
            let p = next_char_boundary(text.as_str(), *cursor);
            proof {
                lemma_next_boundary_is_boundary(text@, *cursor + 1);
                lemma_next_boundary_is_boundary(text@, encode_utf8(text@).len() as int);
            }
            *cursor = p;
        },
        Key::Backspace => {
            if *cursor > 0 {
                let p = remove_before_cursor(text, *cursor);
                *cursor = p;
            }
        },
        Key::Char(c) => {
            let p = insert_at_cursor(text, *cursor, c);
            *cursor = p;
        },
        _ => {},
    }
}

/// Apply a key to the filter field while it is being typed in.
pub fn search_key(typing: &mut bool, text: &mut String, cursor: &mut usize, key: Key)
    requires
        field_ok(old(text)@, *old(cursor)),
    ensures
        (FieldView { typing: *final(typing), text: final(text)@, cursor: *final(cursor) }) == search_key_spec(
            FieldView { typing: *old(typing), text: old(text)@, cursor: *old(cursor) },
            key,
        ),
        is_char_boundary(encode_utf8(final(text)@), *final(cursor) as int),
{
    match key {
        Key::Enter => {
            *typing = false;
            *cursor = 0;
        },
        Key::Esc => {
            *typing = false;
            *cursor = 0;
            *text = String::new();
        },
        Key::Backspace => {
            if *cursor > 0 {
                edit_key(text, cursor, key);
            } else {
                *text = String::new();
                *typing = false;
            }
        },
        _ => {
            edit_key(text, cursor, key);
        },
    }
}
// ---------------------------------------------------------------------------
// Typing and erasing
// ---------------------------------------------------------------------------

proof fn lemma_boundary_before_gap(b: Seq<u8>, i: int, a: int)
    requires
        0 <= a <= i,
        is_char_boundary(b, a),
        forall|j: int| a < j <= i ==> !is_char_boundary(b, j),
    ensures
        boundary_at_or_before(b, i) == a,
    decreases i - a,
{
    if i > a {
        lemma_boundary_before_gap(b, i - 1, a);
    }
}

/// Typing a character in a field and erasing it with backspace gives back
/// the text and the cursor.
pub proof fn law_type_then_erase(text: Seq<char>, cursor: usize, c: char)
    requires
        field_ok(text, cursor),
    ensures
        ({
            let typed = edit_key_spec(text, cursor, Key::Char(c));
            edit_key_spec(typed.0, typed.1, Key::Backspace) == (text, cursor)
        }),
{
    lemma_boundary_prefix(text, cursor as int);
    let k = choose|k: int| 0 <= k <= text.len() && #[trigger] prefix_bytes(text, k) == cursor;
    let s1 = text.take(k).push(c) + text.skip(k);
    assert(inserted_at(text, cursor as int, c) == s1);
    let len_c = encode_scalar(c as u32).len() as int;
    lemma_scalar_len(c);
    let r1 = cursor + len_c;
    assert(s1.take(k) =~= text.take(k));
    assert(prefix_bytes(s1, k) == cursor);
    assert(s1[k] == c);
    lemma_prefix_bytes_step(s1, k);
    assert(prefix_bytes(s1, k + 1) == r1);
    let b1 = encode_utf8(s1);
    lemma_prefix_bytes_mono(s1, k + 1, s1.len() as int);
    assert(r1 <= usize::MAX) by {
        lemma_prefix_bytes_mono(text, k, text.len() as int);
        assert(encode_utf8(text).len() + 4 <= usize::MAX);
    }
    assert forall|j: int| cursor < j <= r1 - 1 implies !is_char_boundary(b1, j) by {
        lemma_boundary_prefix(s1, j);
        if exists|m: int| 0 <= m <= s1.len() && #[trigger] prefix_bytes(s1, m) == j {
            let m = choose|m: int| 0 <= m <= s1.len() && #[trigger] prefix_bytes(s1, m) == j;
            if m <= k {
                lemma_prefix_bytes_mono(s1, m, k);
            } else {
                lemma_prefix_bytes_mono(s1, k + 1, m);
            }
        }
    }
    lemma_boundary_prefix(s1, cursor as int);
    lemma_boundary_before_gap(b1, r1 - 1, cursor as int);
    assert(prev_boundary(b1, r1) == cursor);
    let kk = choose|kk: int| 0 <= kk <= s1.len() && #[trigger] prefix_bytes(s1, kk) == cursor;
    lemma_prefix_unique(s1, k, kk);
    assert(removed_at(s1, cursor as int) =~= text);
}

} // verus!
