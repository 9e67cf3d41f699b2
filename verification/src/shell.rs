//! The editable command line: typed characters and a cursor position.

use vstd::prelude::*;

verus! {

/// Most characters a `Vec<char>` can hold: its buffer may not exceed `isize::MAX` bytes.
pub open spec fn max_chars() -> int {
    isize::MAX as int / 4
}

/// `String: FromIterator<char>`: the string of the characters `v`, in order.
#[verifier::external_body]
pub(crate) fn string_from_chars(v: &[char]) -> (s: String)
    ensures
        s@ == v@,
{
    v.iter().collect()
}

/// The characters `v[a..b]` as a string.
fn chars_to_string(v: &Vec<char>, a: usize, b: usize) -> (s: String)
    requires
        a <= b <= v@.len(),
    ensures
        s@ == v@.subrange(a as int, b as int),
{
    let mut part: Vec<char> = Vec::new();
    let mut i = a;
    while i < b
        invariant
            a <= i <= b <= v@.len(),
            part@ == v@.subrange(a as int, i as int),
        decreases b - i,
    {
        part.push(v[i]);
        i = i + 1;
        proof {
            assert(part@ =~= v@.subrange(a as int, i as int));
        }
    }
    string_from_chars(part.as_slice())
}

/// The text and cursor after typing `c` at the cursor.
pub open spec fn after_insert(sv: (Seq<char>, int), c: char) -> (Seq<char>, int) {
    (sv.0.insert(sv.1, c), sv.1 + 1)
}

/// The text and cursor after a backspace: the character before the cursor goes, if any.
pub open spec fn after_del(sv: (Seq<char>, int)) -> (Seq<char>, int) {
    if sv.1 == 0 {
        sv
    } else {
        (sv.0.remove(sv.1 - 1), sv.1 - 1)
    }
}

/// The text and cursor after moving the cursor by `d`, unless that would leave the text.
pub open spec fn after_go(sv: (Seq<char>, int), d: int) -> (Seq<char>, int) {
    if 0 <= sv.1 + d <= sv.0.len() {
        (sv.0, sv.1 + d)
    } else {
        sv
    }
}

/// A backspace right after typing a character takes the character back out.
pub proof fn lemma_insert_then_del(sv: (Seq<char>, int), c: char)
    requires
        0 <= sv.1 <= sv.0.len(),
    ensures
        after_del(after_insert(sv, c)) == sv,
{
    assert(sv.0.insert(sv.1, c).remove(sv.1) =~= sv.0);
}

/// Moving the cursor by `d` and back by `-d` returns it where it was, when the first move
/// stays inside the text.
pub proof fn lemma_go_and_back(sv: (Seq<char>, int), d: int)
    requires
        0 <= sv.1 <= sv.0.len(),
        0 <= sv.1 + d <= sv.0.len(),
    ensures
        after_go(after_go(sv, d), -d) == sv,
{
}

/// The three parts of the command line put back together give the typed text, the cursor
/// character included unless the cursor stands at the end.
pub proof fn lemma_command_line_parts(sv: (Seq<char>, int))
    requires
        0 <= sv.1 <= sv.0.len(),
    ensures
        sv.1 == sv.0.len() ==> sv.0.take(sv.1) == sv.0,
        sv.1 < sv.0.len() ==> sv.0.take(sv.1) + seq![sv.0[sv.1]] + sv.0.skip(sv.1 + 1) == sv.0,
{
    assert(sv.1 == sv.0.len() ==> sv.0.take(sv.1) =~= sv.0);
    if sv.1 < sv.0.len() {
        assert(sv.0.take(sv.1) + seq![sv.0[sv.1]] + sv.0.skip(sv.1 + 1) =~= sv.0);
    }
}

pub struct Shell {
    cmd: Vec<char>,
    edit_pos: usize,
}

impl View for Shell {
    /// The typed text and the cursor position within it.
    type V = (Seq<char>, int);

    closed spec fn view(&self) -> (Seq<char>, int) {
        (self.cmd@, self.edit_pos as int)
    }
}

impl Shell {
    /// The cursor never leaves the text, and the text fits a `Vec<char>`.
    pub open spec fn wf(self) -> bool {
        0 <= self@.1 <= self@.0.len() <= max_chars()
    }

    /// An empty command line.
    pub fn new() -> (s: Self)
        ensures
            s.wf(),
            s@ == (Seq::<char>::empty(), 0int),
    {
        Shell { cmd: Vec::new(), edit_pos: 0 }
    }

    /// The typed text.
    pub fn command(&self) -> (s: String)
        requires
            self.wf(),
        ensures
            s@ == self@.0,
    {
        chars_to_string(&self.cmd, 0, self.cmd.len())
    }

    /// Number of typed characters.
    pub fn len(&self) -> (n: usize)
        ensures
            n == self@.0.len(),
    {
        self.cmd.len()
    }

    /// The cursor column.
    pub fn xpos(&self) -> (x: usize)
        ensures
            x == self@.1,
    {
        self.edit_pos
    }

    /// The text before the cursor, the character under it (a space at the end), and the text after it.
    pub fn command_line(&self) -> (r: (String, char, String))
        requires
            self.wf(),
        ensures
            r.0@ == self@.0.take(self@.1),
            r.1 == if self@.1 == self@.0.len() { ' ' } else { self@.0[self@.1] },
            r.2@ == if self@.1 == self@.0.len() { Seq::<char>::empty() } else { self@.0.skip(self@.1 + 1) },
    {
        let n = self.cmd.len();
        let at_end = self.edit_pos == n;
        let before = chars_to_string(&self.cmd, 0, self.edit_pos);
        let cursor = if at_end { ' ' } else { self.cmd[self.edit_pos] };
        let after = if at_end { String::new() } else { chars_to_string(&self.cmd, self.edit_pos + 1, n) };
        proof {
            assert(self.cmd@.subrange(0, self.edit_pos as int) =~= self.cmd@.take(self.edit_pos as int));
            assert(self.cmd@.subrange(self.edit_pos + 1, n as int) =~= self.cmd@.skip(self.edit_pos + 1));
        }
        (before, cursor, after)
    }

    /// Types `c` at the cursor and moves the cursor past it.
    pub fn insert(&mut self, c: char)
        requires
            old(self).wf(),
            old(self)@.0.len() < max_chars(),
        ensures
            final(self).wf(),
            final(self)@ == after_insert(old(self)@, c),
    {
        self.cmd.insert(self.edit_pos, c);
        self.edit_pos = self.edit_pos + 1;
    }

    /// Deletes the character before the cursor (backspace); nothing at the start.
    pub fn del(&mut self)
        requires
            old(self).wf(),
        ensures
            final(self).wf(),
            final(self)@ == after_del(old(self)@),
    {
        if self.edit_pos == 0 {
            return;
        }
        self.edit_pos = self.edit_pos - 1;
        self.cmd.remove(self.edit_pos);
    }

    /// Moves the cursor by `delta`, unless that would leave the text.
    pub fn go(&mut self, delta: isize)
        requires
            old(self).wf(),
            old(self)@.1 + delta <= isize::MAX,
        ensures
            final(self).wf(),
            final(self)@ == after_go(old(self)@, delta as int),
    {
        let p = self.edit_pos as isize + delta;
        if p >= 0 && p <= self.cmd.len() as isize {
            self.edit_pos = p as usize;
        }
    }

    /// Empties the text.
    pub fn clear(&mut self)
        ensures
            final(self).wf(),
            final(self)@ == (Seq::<char>::empty(), 0int),
    {
        self.cmd.clear();
        self.edit_pos = 0;
    }
}

} // verus!
