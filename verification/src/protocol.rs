//! Classification of the lines a game program prints: embedded drawing commands (`#[...]`),
//! noise lines that are dropped, and text with `[b]`/`[/b]` weight markers.

use vstd::prelude::*;
use vstd::string::*;

use crate::text::{chars_equal, find_pair, first_pair, is_white_space};

verus! {

/// Position of the first `c` in `s` at or after `from`.
pub open spec fn first_char_from(s: Seq<char>, c: char, from: int) -> Option<int>
    decreases s.len() - from,
{
    if from < 0 || from >= s.len() {
        None
    } else if s[from] == c {
        Some(from)
    } else {
        first_char_from(s, c, from + 1)
    }
}

/// `first_char_from` finds the first `c` at or after `from`, and `None` means there is none.
pub proof fn lemma_first_char_from(s: Seq<char>, c: char, from: int)
    requires
        0 <= from,
    ensures
        first_char_from(s, c, from) matches Some(k) ==> from <= k < s.len() && s[k] == c && forall|j: int|
            from <= j < k ==> #[trigger] s[j] != c,
        first_char_from(s, c, from) is None ==> forall|j: int| from <= j < s.len() ==> #[trigger] s[j] != c,
    decreases s.len() - from,
{
    if from < s.len() && s[from] != c {
        lemma_first_char_from(s, c, from + 1);
    }
}

/// Position of the first `c` in `v[from..]`.
pub fn find_char(v: &Vec<char>, c: char, from: usize) -> (r: Option<usize>)
    ensures
        match first_char_from(v@, c, from as int) {
            Some(k) => r is Some && r->0 == k,
            None => r is None,
        },
{
    proof {
        lemma_first_char_from(v@, c, from as int);
    }
    let n = v.len();
    let mut i = from;
    while i < n
        invariant
            n == v@.len(),
            from <= i,
            forall|j: int| from <= j < i ==> #[trigger] v@[j] != c,
        decreases n - i,
    {
        if v[i] == c {
            proof {
                lemma_first_char_from(v@, c, from as int);
            }
            return Some(i);
        }
        i = i + 1;
    }
    proof {
        lemma_first_char_from(v@, c, from as int);
    }
    None
}

/// Where the drawing command of a line lies: the text between its first `#[` and the next
/// `]`, provided such a `]` exists (the first match of the pattern `#\[([^]]*)\]`).
pub open spec fn command_group(t: Seq<char>) -> Option<(int, int)> {
    match first_pair(t, '#', '[') {
        None => None,
        Some(i) => match first_char_from(t, ']', i + 2) {
            None => None,
            Some(j) => Some((i + 2, j)),
        },
    }
}

/// Start and end of the drawing command embedded in `v`, see `command_group`.
pub fn find_command(v: &Vec<char>) -> (r: Option<(usize, usize)>)
    ensures
        match command_group(v@) {
            Some((a, b)) => r == Some((a as usize, b as usize)) && 0 <= a <= b <= v@.len(),
            None => r is None,
        },
        r matches Some((a, b)) ==> a <= b <= v@.len(),
{
    proof {
        assert(v@.skip(0) =~= v@);
        assert(v@.len() == v.len());
        crate::text::lemma_first_pair(v@, '#', '[');
    }
    match find_pair(v, 0, '#', '[') {
        None => None,
        Some(i) => {
            proof {
                lemma_first_char_from(v@, ']', i + 2);
            }
            match find_char(v, ']', i + 2) {
                None => None,
                Some(j) => Some((i + 2, j)),
            }
        },
    }
}

/// `p` occurs in `t` at position `i`.
pub open spec fn occurs_at(t: Seq<char>, p: Seq<char>, i: int) -> bool {
    0 <= i && i + p.len() <= t.len() && t.subrange(i, i + p.len()) == p
}

/// `p` occurs somewhere in `t` (`str::contains`).
pub open spec fn contains_text(t: Seq<char>, p: Seq<char>) -> bool {
    exists|i: int| #[trigger] occurs_at(t, p, i)
}

/// `t` starts with `p`.
pub open spec fn starts_with(t: Seq<char>, p: Seq<char>) -> bool {
    occurs_at(t, p, 0)
}

/// Whether `p` occurs in `v`.
pub fn contains_str(v: &Vec<char>, p: &str) -> (r: bool)
    ensures
        r == contains_text(v@, p@),
{
    let n = v.len();
    let m = p.unicode_len();
    if m == 0 {
        proof {
            assert(v@.subrange(0, 0) =~= p@);
            assert(occurs_at(v@, p@, 0));
        }
        return true;
    }
    if m > n {
        proof {
            assert forall|i: int| !#[trigger] occurs_at(v@, p@, i) by {}
        }
        return false;
    }
    let mut i: usize = 0;
    while i <= n - m
        invariant
            n == v@.len(),
            m == p@.len(),
            1 <= m <= n,
            i <= n - m + 1,
            forall|j: int| 0 <= j < i ==> !#[trigger] occurs_at(v@, p@, j),
        decreases n - m + 1 - i,
    {
        if chars_equal(v, i, i + m, p) {
            proof {
                assert(occurs_at(v@, p@, i as int));
            }
            return true;
        }
        i = i + 1;
    }
    proof {
        assert forall|j: int| !#[trigger] occurs_at(v@, p@, j) by {
            if 0 <= j < i {
            }
        }
    }
    false
}

/// Whether `v` starts with `p`.
pub fn starts_with_str(v: &Vec<char>, p: &str) -> (r: bool)
    ensures
        r == starts_with(v@, p@),
{
    let m = p.unicode_len();
    if m > v.len() {
        return false;
    }
    chars_equal(v, 0, m, p)
}

/// Lines the game prints that are not shown: ones holding `normal formatting` followed by any
/// character but a line feed, ones starting `Loading ` or `What now?`, and prompts made of
/// `>` and white space only.
pub open spec fn is_noise(t: Seq<char>) -> bool {
    ||| exists|i: int|
        #[trigger] occurs_at(t, "normal formatting"@, i) && i + "normal formatting"@.len() < t.len() && t[i
            + "normal formatting"@.len()] != '\n'
    ||| starts_with(t, "Loading "@)
    ||| starts_with(t, "What now?"@)
    ||| t.len() >= 1 && t[0] == '>' && forall|k: int| 1 <= k < t.len() ==> is_white_space(#[trigger] t[k])
}

/// `char::is_whitespace`, see `text::is_white_space`.
fn white(c: char) -> (r: bool)
    ensures
        r == is_white_space(c),
{
    crate::text::char_is_whitespace(c)
}

/// Whether `v` holds `normal formatting` followed by a character other than a line feed.
fn formatting_notice(v: &Vec<char>) -> (r: bool)
    ensures
        r == exists|i: int|
            #[trigger] occurs_at(v@, "normal formatting"@, i) && i + "normal formatting"@.len() < v@.len() && v@[i
                + "normal formatting"@.len()] != '\n',
{
    let n = v.len();
    let pat = "normal formatting";
    let m = pat.unicode_len();
    proof {
        assert(pat@ == "normal formatting"@);
    }
    if m >= n {
        proof {
            assert forall|j: int| !(#[trigger] occurs_at(v@, pat@, j) && j + m < n && v@[j + m] != '\n') by {}
        }
        return false;
    }
    let mut i: usize = 0;
    while i < n - m
        invariant
            n == v@.len(),
            pat@ == "normal formatting"@,
            m == pat@.len(),
            m < n,
            i <= n - m,
            forall|j: int| 0 <= j < i ==> !(#[trigger] occurs_at(v@, pat@, j) && j + m < n && v@[j + m] != '\n'),
        decreases n - m - i,
    {
        if chars_equal(v, i, i + m, pat) && v[i + m] != '\n' {
            proof {
                assert(pat@ == "normal formatting"@);
                assert(occurs_at(v@, "normal formatting"@, i as int));
            }
            return true;
        }
        i = i + 1;
    }
    proof {
        assert forall|j: int| !(#[trigger] occurs_at(v@, pat@, j) && j + m < n && v@[j + m] != '\n') by {
            if 0 <= j < i {
            }
        }
    }
    false
}

/// Whether `v` is `>` followed by white space only.
fn empty_prompt(v: &Vec<char>) -> (r: bool)
    ensures
        r == (v@.len() >= 1 && v@[0] == '>' && forall|k: int| 1 <= k < v@.len() ==> is_white_space(#[trigger] v@[k])),
{
    let n = v.len();
    if n == 0 || v[0] != '>' {
        return false;
    }
    let mut k: usize = 1;
    while k < n
        invariant
            n == v@.len(),
            1 <= k <= n,
            forall|j: int| 1 <= j < k ==> is_white_space(#[trigger] v@[j]),
        decreases n - k,
    {
        if !white(v[k]) {
            proof {
                assert(!is_white_space(v@[k as int]));
            }
            return false;
        }
        k = k + 1;
    }
    true
}

/// Whether the line `v` is noise, see `is_noise`.
pub fn noise_line(v: &Vec<char>) -> (r: bool)
    ensures
        r == is_noise(v@),
{
    formatting_notice(v) || starts_with_str(v, "Loading ") || starts_with_str(v, "What now?") || empty_prompt(v)
}

/// Text weight as the `[b]` and `[/b]` markers set it: untouched, bold, or explicitly not bold.
#[derive(Clone, Copy, PartialEq, Eq, Debug)]
pub enum Weight {
    Inherit,
    Bold,
    NotBold,
}

/// A piece of text and its weight.
pub struct StyledSpan {
    pub text: String,
    pub weight: Weight,
}

/// The abstract value of a `StyledSpan`.
pub struct SpanView {
    pub text: Seq<char>,
    pub weight: Weight,
}

impl View for StyledSpan {
    type V = SpanView;

    open spec fn view(&self) -> SpanView {
        SpanView { text: self.text@, weight: self.weight }
    }
}

/// The abstract values of `spans`.
pub open spec fn spans_view(spans: Seq<StyledSpan>) -> Seq<SpanView> {
    spans.map_values(|x: StyledSpan| x@)
}

/// The next `[...]` marker at or after `pos`: the first `[` there and the first `]` after it.
pub open spec fn next_marker(t: Seq<char>, pos: int) -> Option<(int, int)> {
    match first_char_from(t, '[', pos) {
        None => None,
        Some(i) => match first_char_from(t, ']', i + 1) {
            None => None,
            Some(j) => Some((i, j)),
        },
    }
}

/// The weight after the marker text `m`: `b` makes text bold, `/b` not bold, anything else
/// leaves the weight as it was.
pub open spec fn marker_weight(m: Seq<char>, w: Weight) -> Weight {
    if m == "b"@ {
        Weight::Bold
    } else if m == "/b"@ {
        Weight::NotBold
    } else {
        w
    }
}

/// The spans of `t` from `pos` on, starting with weight `w`: the text between markers, each
/// piece with the weight set by the markers before it; the markers themselves are dropped and
/// no span is empty.
pub open spec fn styled_spans(t: Seq<char>, pos: int, w: Weight) -> Seq<SpanView>
    decreases t.len() - pos,
{
    if pos < 0 || pos > t.len() {
        seq![]
    } else {
        match next_marker(t, pos) {
            None => if pos < t.len() {
                seq![SpanView { text: t.subrange(pos, t.len() as int), weight: w }]
            } else {
                seq![]
            },
            Some((i, j)) => {
                proof {
                    lemma_first_char_from(t, '[', pos);
                    lemma_first_char_from(t, ']', i + 1);
                }
                let lit = if pos < i {
                    seq![SpanView { text: t.subrange(pos, i), weight: w }]
                } else {
                    seq![]
                };
                lit + styled_spans(t, j + 1, marker_weight(t.subrange(i + 1, j), w))
            },
        }
    }
}

/// No span is empty, and every span is a piece of the line.
pub proof fn lemma_spans_nonempty(t: Seq<char>, pos: int, w: Weight)
    ensures
        forall|k: int|
            0 <= k < styled_spans(t, pos, w).len() ==> #[trigger] styled_spans(t, pos, w)[k].text.len() > 0,
    decreases t.len() - pos,
{
    if 0 <= pos <= t.len() {
        match next_marker(t, pos) {
            None => {},
            Some((i, j)) => {
                lemma_first_char_from(t, '[', pos);
                lemma_first_char_from(t, ']', i + 1);
                let nw = marker_weight(t.subrange(i + 1, j), w);
                lemma_spans_nonempty(t, j + 1, nw);
                let lit = if pos < i {
                    seq![SpanView { text: t.subrange(pos, i), weight: w }]
                } else {
                    seq![]
                };
                let rest = styled_spans(t, j + 1, nw);
                assert(styled_spans(t, pos, w) == lit + rest);
                assert forall|k: int| 0 <= k < (lit + rest).len() implies #[trigger] (lit + rest)[k].text.len() > 0 by {
                    if k >= lit.len() {
                        assert((lit + rest)[k] == rest[k - lit.len()]);
                    }
                }
            },
        }
    }
}

/// A line without `[` is one span holding the whole line (none for an empty line), with the
/// weight left untouched.
pub proof fn lemma_plain_line(t: Seq<char>)
    requires
        forall|k: int| 0 <= k < t.len() ==> t[k] != '[',
    ensures
        styled_spans(t, 0, Weight::Inherit) == if t.len() == 0 {
            Seq::<SpanView>::empty()
        } else {
            seq![SpanView { text: t, weight: Weight::Inherit }]
        },
{
    lemma_first_char_from(t, '[', 0);
    assert(t.subrange(0, t.len() as int) =~= t);
}

/// A marker other than `[b]` and `[/b]` is dropped and leaves the weight as it was: the spans
/// after it carry the weight in force before it.
pub proof fn lemma_other_marker_keeps_weight(t: Seq<char>, pos: int, w: Weight)
    requires
        0 <= pos <= t.len(),
        next_marker(t, pos) matches Some((i, j)) && t.subrange(i + 1, j) != "b"@ && t.subrange(i + 1, j)
            != "/b"@,
    ensures
        ({
            let (i, j) = next_marker(t, pos)->0;
            styled_spans(t, pos, w) == (if pos < i {
                seq![SpanView { text: t.subrange(pos, i), weight: w }]
            } else {
                Seq::<SpanView>::empty()
            }) + styled_spans(t, j + 1, w)
        }),
{
}

/// In a line without the letter `b` no marker can change the weight: every span carries the
/// weight in force at the start.
pub proof fn lemma_no_weight_markers(t: Seq<char>, pos: int, w: Weight)
    requires
        forall|k: int| 0 <= k < t.len() ==> t[k] != 'b',
    ensures
        forall|k: int|
            0 <= k < styled_spans(t, pos, w).len() ==> #[trigger] styled_spans(t, pos, w)[k].weight == w,
    decreases t.len() - pos,
{
    if 0 <= pos <= t.len() {
        match next_marker(t, pos) {
            None => {},
            Some((i, j)) => {
                lemma_first_char_from(t, '[', pos);
                lemma_first_char_from(t, ']', i + 1);
                let m = t.subrange(i + 1, j);
                reveal_strlit("b");
                reveal_strlit("/b");
                assert(pos <= i < j < t.len());
                assert("b"@.len() == 1 && "b"@[0] == 'b');
                assert("/b"@.len() == 2 && "/b"@[1] == 'b');
                if m.len() >= 1 {
                    assert(m[0] == t[i + 1]);
                }
                if m.len() >= 2 {
                    assert(m[1] == t[i + 2]);
                }
                assert(m != "b"@);
                assert(m != "/b"@);
                lemma_no_weight_markers(t, j + 1, w);
                let lit = if pos < i {
                    seq![SpanView { text: t.subrange(pos, i), weight: w }]
                } else {
                    seq![]
                };
                let rest = styled_spans(t, j + 1, w);
                assert(styled_spans(t, pos, w) == lit + rest);
                assert forall|k: int| 0 <= k < (lit + rest).len() implies #[trigger] (lit + rest)[k].weight == w by {
                    if k >= lit.len() {
                        assert((lit + rest)[k] == rest[k - lit.len()]);
                    }
                }
            },
        }
    }
}

/// The characters `v[a..b]` of `s` (whose characters are `v`) as a span of weight `w`.
fn span_of(s: &str, v: &Vec<char>, a: usize, b: usize, w: Weight) -> (r: StyledSpan)
    requires
        v@ == s@,
        a <= b <= v@.len(),
    ensures
        r@ == (SpanView { text: v@.subrange(a as int, b as int), weight: w }),
{
    StyledSpan { text: String::from_str(s.substring_char(a, b)), weight: w }
}

/// Splits the line `s` (whose characters are `v`) into weighted spans, see `styled_spans`.
pub fn styled_text(s: &str, v: &Vec<char>) -> (r: Vec<StyledSpan>)
    requires
        v@ == s@,
    ensures
        spans_view(r@) == styled_spans(v@, 0, Weight::Inherit),
{
    let n = v.len();
    let mut spans: Vec<StyledSpan> = Vec::new();
    let mut pos: usize = 0;
    let mut w = Weight::Inherit;
    loop
        invariant_except_break
            n == v@.len(),
            v@ == s@,
            pos <= n,
            spans_view(spans@) + styled_spans(v@, pos as int, w) == styled_spans(v@, 0, Weight::Inherit),
        ensures
            spans_view(spans@) == styled_spans(v@, 0, Weight::Inherit),
        decreases n - pos,
    {
        let ghost before = spans@;
        let ghost rest = styled_spans(v@, pos as int, w);
        proof {
            lemma_first_char_from(v@, '[', pos as int);
        }
        let open = find_char(v, '[', pos);
        let close = match open {
            None => None,
            Some(i) => {
                proof {
                    lemma_first_char_from(v@, ']', i + 1);
                }
                find_char(v, ']', i + 1)
            },
        };
        match (open, close) {
            (Some(i), Some(j)) => {
                if pos < i {
                    spans.push(span_of(s, v, pos, i, w));
                }
                let nw = if chars_equal(v, i + 1, j, "b") {
                    Weight::Bold
                } else if chars_equal(v, i + 1, j, "/b") {
                    Weight::NotBold
                } else {
                    w
                };
                proof {
                    assert(next_marker(v@, pos as int) == Some((i as int, j as int)));
                    assert(nw == marker_weight(v@.subrange(i + 1, j as int), w));
                    let lit = if pos < i {
                        seq![SpanView { text: v@.subrange(pos as int, i as int), weight: w }]
                    } else {
                        seq![]
                    };
                    assert(rest == lit + styled_spans(v@, j + 1, nw));
                    assert(spans_view(spans@) =~= spans_view(before) + lit);
                    assert(spans_view(spans@) + styled_spans(v@, j + 1, nw) =~= spans_view(before) + rest);
                }
                pos = j + 1;
                w = nw;
            },
            _ => {
                proof {
                    assert(next_marker(v@, pos as int) is None);
                }
                if pos < n {
                    spans.push(span_of(s, v, pos, n, w));
                }
                proof {
                    assert(spans_view(spans@) =~= spans_view(before) + rest);
                }
                break;
            },
        }
    }
    spans
}

} // verus!
