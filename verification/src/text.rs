//! Character-level scanning of command lines: white-space separated words,
//! integer literals, and `::`-separated fields.

use vstd::prelude::*;
use vstd::string::*;

verus! {

/// The characters of `s`, in order.
pub fn chars_of(s: &str) -> (v: Vec<char>)
    ensures
        v@ == s@,
{
    let mut v: Vec<char> = Vec::new();
    for c in it: s.chars()
        invariant
            v@ == it.seq().take(it.index() as int),
    {
        v.push(c);
    }
    v
}

/// Characters with the Unicode `White_Space` property.
pub open spec fn is_white_space(c: char) -> bool {
    ||| '\u{9}' <= c <= '\u{d}'
    ||| c == ' '
    ||| c == '\u{85}'
    ||| c == '\u{a0}'
    ||| c == '\u{1680}'
    ||| '\u{2000}' <= c <= '\u{200a}'
    ||| c == '\u{2028}'
    ||| c == '\u{2029}'
    ||| c == '\u{202f}'
    ||| c == '\u{205f}'
    ||| c == '\u{3000}'
}

/// `char::is_whitespace`: whether `c` has the Unicode `White_Space` property.
#[verifier::external_body]
pub(crate) fn char_is_whitespace(c: char) -> (r: bool)
    ensures
        r == is_white_space(c),
{
    c.is_whitespace()
}

/// Length of the leading run of characters that are not white space.
pub open spec fn word_len(s: Seq<char>) -> nat
    decreases s.len(),
{
    if s.len() == 0 || is_white_space(s[0]) {
        0
    } else {
        1 + word_len(s.drop_first())
    }
}

/// The leading word is a run of non-white-space characters, ended by white space or the end.
pub proof fn lemma_word_len(s: Seq<char>)
    ensures
        word_len(s) <= s.len(),
        forall|k: int| 0 <= k < word_len(s) ==> !is_white_space(#[trigger] s[k]),
        word_len(s) == s.len() || is_white_space(s[word_len(s) as int]),
        s.len() > 0 && !is_white_space(s[0]) ==> word_len(s) > 0,
    decreases s.len(),
{
    if s.len() > 0 && !is_white_space(s[0]) {
        lemma_word_len(s.drop_first());
        assert forall|k: int| 0 <= k < word_len(s) implies !is_white_space(#[trigger] s[k]) by {
            if k > 0 {
                assert(s[k] == s.drop_first()[k - 1]);
            }
        }
    }
}

/// A run of `j` non-white-space characters ended by white space (or the end) is the leading word.
proof fn lemma_word_len_is(s: Seq<char>, j: int)
    requires
        0 <= j <= s.len(),
        forall|k: int| 0 <= k < j ==> !is_white_space(#[trigger] s[k]),
        j == s.len() || is_white_space(s[j]),
    ensures
        word_len(s) == j,
    decreases j,
{
    if j > 0 {
        assert forall|k: int| 0 <= k < j - 1 implies !is_white_space(#[trigger] s.drop_first()[k]) by {
            assert(s.drop_first()[k] == s[k + 1]);
        }
        if j < s.len() {
            assert(s.drop_first()[j - 1] == s[j]);
        }
        lemma_word_len_is(s.drop_first(), j - 1);
    }
}

/// The white-space separated words of `s`, in order (as `str::split_whitespace` yields them).
pub open spec fn words(s: Seq<char>) -> Seq<Seq<char>>
    decreases s.len(),
{
    if s.len() == 0 {
        seq![]
    } else if is_white_space(s[0]) {
        words(s.drop_first())
    } else {
        let n = word_len(s);
        proof {
            lemma_word_len(s);
        }
        seq![s.take(n as int)] + words(s.skip(n as int))
    }
}

/// Value of a digit character in bases up to 36; 36 for any other character.
pub open spec fn digit_value(c: char) -> int {
    if '0' <= c <= '9' {
        c as int - '0' as int
    } else if 'a' <= c <= 'z' {
        c as int - 'a' as int + 10
    } else if 'A' <= c <= 'Z' {
        c as int - 'A' as int + 10
    } else {
        36
    }
}

/// `d` is digits of base `radix` with single underscores between them; when `lead`, one
/// underscore may also stand before the first digit (as after a `0x` prefix).
pub open spec fn digit_groups(d: Seq<char>, radix: int, lead: bool) -> bool {
    &&& d.len() > 0
    &&& d.last() != '_'
    &&& !lead ==> d[0] != '_'
    &&& forall|i: int| 0 <= i < d.len() ==> #[trigger] d[i] == '_' || digit_value(d[i]) < radix
    &&& forall|i: int| 0 <= i < d.len() - 1 ==> !(#[trigger] d[i] == '_' && d[i + 1] == '_')
}

/// `d` with its underscores taken out.
pub open spec fn no_underscores(d: Seq<char>) -> Seq<char>
    decreases d.len(),
{
    if d.len() == 0 {
        d
    } else if d.last() == '_' {
        no_underscores(d.drop_last())
    } else {
        no_underscores(d.drop_last()).push(d.last())
    }
}

/// The number that the digits `d` spell in base `radix`.
pub open spec fn digits_value(d: Seq<char>, radix: int) -> int
    decreases d.len(),
{
    if d.len() == 0 {
        0
    } else {
        digits_value(d.drop_last(), radix) * radix + digit_value(d.last())
    }
}

/// The number that `d` spells in base `radix`, provided it is digit groups of that base (see
/// `digit_groups`).
pub open spec fn radix_value(d: Seq<char>, radix: int, lead: bool) -> Option<int> {
    if digit_groups(d, radix, lead) {
        Some(digits_value(no_underscores(d), radix))
    } else {
        None
    }
}

/// White space as Python's `int` strips it: the Unicode `White_Space` characters and the
/// separators U+001C to U+001F.
pub open spec fn py_space(c: char) -> bool {
    is_white_space(c) || ('\u{1c}' <= c <= '\u{1f}')
}

/// `s` without its leading white space.
pub open spec fn trim_start(s: Seq<char>) -> Seq<char>
    decreases s.len(),
{
    if s.len() > 0 && py_space(s[0]) {
        trim_start(s.drop_first())
    } else {
        s
    }
}

/// `s` without its trailing white space.
pub open spec fn trim_end(s: Seq<char>) -> Seq<char>
    decreases s.len(),
{
    if s.len() > 0 && py_space(s.last()) {
        trim_end(s.drop_last())
    } else {
        s
    }
}

/// `s` starts with the two characters `a`, `b`.
pub open spec fn starts_with2(s: Seq<char>, a: char, b: char) -> bool {
    s.len() >= 2 && s[0] == a && s[1] == b
}

/// The value of an integer literal written with ASCII digits, as Python's `int(s, 0)` reads
/// one, as far as it is an `i64`: surrounding white space is ignored; an optional sign comes
/// first; then either a `0x`/`0o`/`0b` prefix (either case) and digits of base 16, 8 or 2, or
/// decimal digits, which may not start with `0` unless they are all zeros; single underscores
/// may separate digits, and one may follow a prefix. `None` for anything else and for values
/// outside the `i64` range.
pub open spec fn ascii_literal(w: Seq<char>) -> Option<int> {
    let t = trim_end(trim_start(w));
    let neg = t.len() > 0 && t[0] == '-';
    let rest = if t.len() > 0 && (t[0] == '-' || t[0] == '+') { t.drop_first() } else { t };
    let m = if starts_with2(rest, '0', 'x') || starts_with2(rest, '0', 'X') {
        radix_value(rest.skip(2), 16, true)
    } else if starts_with2(rest, '0', 'o') || starts_with2(rest, '0', 'O') {
        radix_value(rest.skip(2), 8, true)
    } else if starts_with2(rest, '0', 'b') || starts_with2(rest, '0', 'B') {
        radix_value(rest.skip(2), 2, true)
    } else {
        match radix_value(rest, 10, false) {
            Some(n) => if rest[0] == '0' && n != 0 {
                None
            } else {
                Some(n)
            },
            None => None,
        }
    };
    match m {
        Some(n) => {
            let v = if neg { -n } else { n };
            if i64::MIN <= v <= i64::MAX {
                Some(v)
            } else {
                None
            }
        },
        None => None,
    }
}

/// The first code point of each run of ten decimal digits (general category `Nd`) in
/// Unicode 15.0, the digit zero of its script.
pub open spec fn decimal_zeros() -> Seq<u32> {
    seq![
        0x30u32, 0x660, 0x6F0, 0x7C0, 0x966, 0x9E6, 0xA66, 0xAE6,
        0xB66, 0xBE6, 0xC66, 0xCE6, 0xD66, 0xDE6, 0xE50, 0xED0,
        0xF20, 0x1040, 0x1090, 0x17E0, 0x1810, 0x1946, 0x19D0, 0x1A80,
        0x1A90, 0x1B50, 0x1BB0, 0x1C40, 0x1C50, 0xA620, 0xA8D0, 0xA900,
        0xA9D0, 0xA9F0, 0xAA50, 0xABF0, 0xFF10, 0x104A0, 0x10D30, 0x11066,
        0x110F0, 0x11136, 0x111D0, 0x112F0, 0x11450, 0x114D0, 0x11650, 0x116C0,
        0x11730, 0x118E0, 0x11950, 0x11C50, 0x11D50, 0x11DA0, 0x11F50, 0x16A60,
        0x16AC0, 0x16B50, 0x1D7CE, 0x1D7D8, 0x1D7E2, 0x1D7EC, 0x1D7F6, 0x1E140,
        0x1E2F0, 0x1E4F0, 0x1E950, 0x1FBF0,
    ]
}

/// The decimal value of `c` if it is a decimal digit of any script (as Python's `int` reads
/// digits), and -1 otherwise.
pub open spec fn unicode_decimal(c: char) -> int {
    if (c as int) < 0x30 {
        -1
    } else {
        decimal_in(decimal_zeros(), c as int)
    }
}

/// The value of `v` as a digit of the first run of `zs` that holds it, -1 if none does.
pub open spec fn decimal_in(zs: Seq<u32>, v: int) -> int
    decreases zs.len(),
{
    if zs.len() == 0 {
        -1
    } else if zs[0] <= v < zs[0] + 10 {
        v - zs[0]
    } else {
        decimal_in(zs.drop_first(), v)
    }
}

/// The ASCII digit of value `d` (0 to 9).
pub open spec fn ascii_digit(d: int) -> char {
    if d == 0 {
        '0'
    } else if d == 1 {
        '1'
    } else if d == 2 {
        '2'
    } else if d == 3 {
        '3'
    } else if d == 4 {
        '4'
    } else if d == 5 {
        '5'
    } else if d == 6 {
        '6'
    } else if d == 7 {
        '7'
    } else if d == 8 {
        '8'
    } else {
        '9'
    }
}

/// `c`, or the ASCII digit of the same value when `c` is a decimal digit of another script.
pub open spec fn to_ascii_digit(c: char) -> char {
    if unicode_decimal(c) >= 0 {
        ascii_digit(unicode_decimal(c))
    } else {
        c
    }
}

/// `s` with every decimal digit replaced by the ASCII digit of the same value, as Python's
/// `int` does before it reads a literal.
pub open spec fn ascii_digits(s: Seq<char>) -> Seq<char> {
    s.map_values(|c: char| to_ascii_digit(c))
}

/// The value of an integer literal as Python's `int(s, 0)` reads one, as far as it is an `i64`:
/// decimal digits of any script count as the ASCII digits of the same value (see
/// `ascii_digits`), and the result is then read as `ascii_literal` reads it.
pub open spec fn int_literal(w: Seq<char>) -> Option<int> {
    ascii_literal(ascii_digits(w))
}

/// Digits spell a value of at least zero.
proof fn lemma_digits_nonneg(d: Seq<char>, radix: int)
    requires
        radix >= 0,
    ensures
        digits_value(d, radix) >= 0,
    decreases d.len(),
{
    if d.len() > 0 {
        lemma_digits_nonneg(d.drop_last(), radix);
        let v = digits_value(d.drop_last(), radix);
        assert(v * radix >= 0) by (nonlinear_arith)
            requires
                v >= 0,
                radix >= 0,
        ;
    }
}

/// Trailing white space goes after a leading character that is not white space.
proof fn lemma_trim_end_prepend(p: char, a: Seq<char>)
    requires
        !py_space(p),
    ensures
        trim_end(seq![p] + a) == seq![p] + trim_end(a),
        trim_end(a).len() <= a.len(),
        trim_end(a) == a.take(trim_end(a).len() as int),
        a.len() > 0 && !py_space(a[0]) ==> trim_end(a).len() > 0,
    decreases a.len(),
{
    if a.len() > 0 {
        assert((seq![p] + a).drop_last() =~= seq![p] + a.drop_last());
        assert((seq![p] + a).last() == a.last());
        lemma_trim_end_prepend(p, a.drop_last());
        if !py_space(a.last()) {
            assert(a.take(a.len() as int) =~= a);
        } else {
            assert(a.drop_last().take(trim_end(a).len() as int) =~= a.take(trim_end(a).len() as int));
            if a.len() > 1 && !py_space(a[0]) {
                assert(a.drop_last()[0] == a[0]);
            }
        }
    } else {
        assert(seq![p] + a =~= seq![p]);
    }
}

/// The sign law for literals written with ASCII digits, see `lemma_sign`.
proof fn lemma_ascii_sign(a: Seq<char>)
    requires
        a.len() > 0,
        !py_space(a[0]),
        forall|i: int| 0 <= i < a.len() ==> a[i] != '+' && a[i] != '-',
    ensures
        ascii_literal(seq!['+'] + a) == ascii_literal(a),
        ascii_literal(a) matches Some(v) ==> ascii_literal(seq!['-'] + a) == Some(-v),
        ascii_literal(a) is None ==> (ascii_literal(seq!['-'] + a) matches Some(v) ==> v == i64::MIN),
{
    lemma_trim_end_prepend('+', a);
    lemma_trim_end_prepend('-', a);
    let t = trim_end(a);
    assert(trim_start(a) == a);
    assert(trim_start(seq!['+'] + a) == seq!['+'] + a);
    assert(trim_start(seq!['-'] + a) == seq!['-'] + a);
    assert(t[0] == a[0]);
    assert((seq!['+'] + t).drop_first() =~= t);
    assert((seq!['-'] + t).drop_first() =~= t);
    let rest = t;
    if starts_with2(rest, '0', 'x') || starts_with2(rest, '0', 'X') {
        lemma_digits_nonneg(no_underscores(rest.skip(2)), 16);
    } else if starts_with2(rest, '0', 'o') || starts_with2(rest, '0', 'O') {
        lemma_digits_nonneg(no_underscores(rest.skip(2)), 8);
    } else if starts_with2(rest, '0', 'b') || starts_with2(rest, '0', 'B') {
        lemma_digits_nonneg(no_underscores(rest.skip(2)), 2);
    } else {
        lemma_digits_nonneg(no_underscores(rest), 10);
    }
}

/// A sign in front of a literal without one: `+` changes nothing, and `-` negates the value,
/// also reaching `i64::MIN`, whose magnitude alone is out of range.
pub proof fn lemma_sign(s: Seq<char>)
    requires
        s.len() > 0,
        !py_space(s[0]),
        forall|i: int| 0 <= i < s.len() ==> s[i] != '+' && s[i] != '-',
    ensures
        int_literal(seq!['+'] + s) == int_literal(s),
        int_literal(s) matches Some(v) ==> int_literal(seq!['-'] + s) == Some(-v),
        int_literal(s) is None ==> (int_literal(seq!['-'] + s) matches Some(v) ==> v == i64::MIN),
{
    assert(unicode_decimal('+') == -1);
    assert(unicode_decimal('-') == -1);
    let a = ascii_digits(s);
    assert(ascii_digits(seq!['+'] + s) =~= seq!['+'] + a);
    assert(ascii_digits(seq!['-'] + s) =~= seq!['-'] + a);
    assert forall|i: int| 0 <= i < a.len() implies a[i] != '+' && a[i] != '-' by {
        assert(a[i] == to_ascii_digit(s[i]));
    }
    assert(a[0] == to_ascii_digit(s[0]));
    lemma_ascii_sign(a);
}

/// The values of the words of `ws` that are integer literals, in order; the others are skipped.
pub open spec fn literal_values(ws: Seq<Seq<char>>) -> Seq<i64>
    decreases ws.len(),
{
    if ws.len() == 0 {
        seq![]
    } else {
        let rest = literal_values(ws.drop_first());
        match int_literal(ws[0]) {
            Some(v) => seq![v as i64] + rest,
            None => rest,
        }
    }
}

/// `o` as a mathematical integer option.
pub open spec fn opt_int(o: Option<i64>) -> Option<int> {
    match o {
        Some(v) => Some(v as int),
        None => None,
    }
}

/// The value of a digit character in bases up to 36, and 36 for any other character.
fn digit_of(c: char) -> (r: u32)
    ensures
        r as int == digit_value(c),
{
    if '0' <= c && c <= '9' {
        (c as u32) - ('0' as u32)
    } else if 'a' <= c && c <= 'z' {
        (c as u32) - ('a' as u32) + 10
    } else if 'A' <= c && c <= 'Z' {
        (c as u32) - ('A' as u32) + 10
    } else {
        36
    }
}

/// Taking out underscores commutes with appending a character.
proof fn lemma_no_underscores_push(d: Seq<char>, c: char)
    ensures
        no_underscores(d.push(c)) == if c == '_' {
            no_underscores(d)
        } else {
            no_underscores(d).push(c)
        },
{
    assert(d.push(c).drop_last() =~= d);
}

/// The magnitude `w[start..end]` spells in base `radix`, see `radix_value`; `None` as well when
/// it exceeds 2^63, the largest magnitude of an `i64`.
fn parse_digits(w: &Vec<char>, start: usize, end: usize, radix: u32, lead: bool) -> (r: Option<u64>)
    requires
        start <= end <= w@.len(),
        2 <= radix <= 36,
    ensures
        match radix_value(w@.subrange(start as int, end as int), radix as int, lead) {
            Some(m) => if m <= 0x8000_0000_0000_0000 {
                r == Some(m as u64)
            } else {
                r is None
            },
            None => r is None,
        },
        r matches Some(n) ==> radix_value(w@.subrange(start as int, end as int), radix as int, lead) == Some(
            n as int,
        ) && n <= 0x8000_0000_0000_0000,
{
    let ghost d = w@.subrange(start as int, end as int);
    let limit: u128 = 0x8000_0000_0000_0000;
    let mut acc: u128 = 0;
    let mut over = false;
    let mut prev_us = false;
    let ghost mut val: int = 0;
    let mut i = start;
    proof {
        assert(w@.subrange(start as int, start as int) =~= Seq::<char>::empty());
    }
    while i < end
        invariant
            start <= i <= end <= w@.len(),
            d == w@.subrange(start as int, end as int),
            2 <= radix <= 36,
            limit == 0x8000_0000_0000_0000,
            ({
                let pre = w@.subrange(start as int, i as int);
                &&& !lead && pre.len() > 0 ==> pre[0] != '_'
                &&& forall|k: int| 0 <= k < pre.len() ==> #[trigger] pre[k] == '_' || digit_value(pre[k]) < radix
                &&& forall|k: int| 0 <= k < pre.len() - 1 ==> !(#[trigger] pre[k] == '_' && pre[k + 1] == '_')
                &&& prev_us == (pre.len() > 0 && pre.last() == '_')
                &&& val == digits_value(no_underscores(pre), radix as int)
            }),
            val >= 0,
            !over ==> acc == val && acc <= limit,
            over ==> val > limit,
        decreases end - i,
    {
        let ghost pre = w@.subrange(start as int, i as int);
        let ghost pre1 = w@.subrange(start as int, (i + 1) as int);
        let c = w[i];
        proof {
            assert(pre1 =~= pre.push(c));
            assert(d[(i - start) as int] == c);
            lemma_no_underscores_push(pre, c);
        }
        if c == '_' {
            if prev_us || (i == start && !lead) {
                proof {
                    if prev_us {
                        assert(d[(i - start - 1) as int] == pre.last());
                    }
                }
                return None;
            }
            prev_us = true;
        } else {
            let dv = digit_of(c);
            if dv >= radix {
                return None;
            }
            proof {
                let nu = no_underscores(pre);
                assert(nu.push(c).drop_last() =~= nu);
                assert(val * radix >= val) by (nonlinear_arith)
                    requires
                        val >= 0,
                        radix >= 2,
                ;
                val = val * radix + dv;
            }
            if !over {
                proof {
                    assert(acc * radix <= limit * 36) by (nonlinear_arith)
                        requires
                            acc <= limit,
                            radix <= 36,
                    ;
                }
                let next = acc * (radix as u128) + dv as u128;
                if next > limit {
                    over = true;
                } else {
                    acc = next;
                }
            }
            prev_us = false;
        }
        proof {
            assert forall|k: int| 0 <= k < pre1.len() - 1 implies !(#[trigger] pre1[k] == '_' && pre1[k + 1] == '_') by {
                if k < pre.len() - 1 {
                    assert(pre1[k] == pre[k] && pre1[k + 1] == pre[k + 1]);
                } else {
                    assert(pre1[k] == pre.last());
                }
            }
            assert forall|k: int| 0 <= k < pre1.len() implies #[trigger] pre1[k] == '_' || digit_value(pre1[k])
                < radix by {
                if k < pre.len() {
                    assert(pre1[k] == pre[k]);
                }
            }
        }
        i = i + 1;
    }
    proof {
        assert(w@.subrange(start as int, i as int) =~= d);
    }
    if start == end || prev_us || over {
        return None;
    }
    Some(acc as u64)
}

/// Position of the first character at or after `i` in `w[..end]` that is not white space.
fn skip_space(w: &Vec<char>, i: usize, end: usize) -> (r: usize)
    requires
        i <= end <= w@.len(),
    ensures
        i <= r <= end,
        trim_start(w@.subrange(i as int, end as int)) == w@.subrange(r as int, end as int),
        r < end ==> !py_space(w@[r as int]),
{
    let mut k = i;
    while k < end && (crate::text::char_is_whitespace(w[k]) || ('\u{1c}' <= w[k] && w[k] <= '\u{1f}'))
        invariant
            i <= k <= end <= w@.len(),
            trim_start(w@.subrange(i as int, end as int)) == trim_start(w@.subrange(k as int, end as int)),
        decreases end - k,
    {
        proof {
            assert(w@.subrange(k as int, end as int).drop_first() =~= w@.subrange(k + 1, end as int));
            assert(w@.subrange(k as int, end as int)[0] == w@[k as int]);
        }
        k = k + 1;
    }
    proof {
        if k < end {
            assert(w@.subrange(k as int, end as int)[0] == w@[k as int]);
        }
    }
    k
}

/// End of `w[start..e]` without its trailing white space.
fn back_space(w: &Vec<char>, start: usize, e: usize) -> (r: usize)
    requires
        start <= e <= w@.len(),
    ensures
        start <= r <= e,
        trim_end(w@.subrange(start as int, e as int)) == w@.subrange(start as int, r as int),
{
    let mut k = e;
    while k > start && (crate::text::char_is_whitespace(w[k - 1]) || ('\u{1c}' <= w[k - 1] && w[k - 1] <= '\u{1f}'))
        invariant
            start <= k <= e <= w@.len(),
            trim_end(w@.subrange(start as int, e as int)) == trim_end(w@.subrange(start as int, k as int)),
        decreases k - start,
    {
        proof {
            assert(w@.subrange(start as int, k as int).drop_last() =~= w@.subrange(start as int, k - 1));
            assert(w@.subrange(start as int, k as int).last() == w@[k - 1]);
        }
        k = k - 1;
    }
    proof {
        if k > start {
            assert(w@.subrange(start as int, k as int).last() == w@[k - 1]);
        }
    }
    k
}

/// Reads `w[start..end]` as an integer literal written with ASCII digits, see `ascii_literal`.
fn parse_ascii_literal(w: &Vec<char>, start: usize, end: usize) -> (r: Option<i64>)
    requires
        start <= end <= w@.len(),
    ensures
        opt_int(r) == ascii_literal(w@.subrange(start as int, end as int)),
{
    let ts = skip_space(w, start, end);
    let te = back_space(w, ts, end);
    let ghost t = w@.subrange(ts as int, te as int);
    proof {
        assert(trim_end(trim_start(w@.subrange(start as int, end as int))) == t);
    }
    let neg = ts < te && w[ts] == '-';
    let rs = if ts < te && (w[ts] == '-' || w[ts] == '+') { ts + 1 } else { ts };
    let ghost rest = w@.subrange(rs as int, te as int);
    proof {
        if ts < te {
            assert(t[0] == w@[ts as int]);
        }
        if ts < te && (w@[ts as int] == '-' || w@[ts as int] == '+') {
            assert(rest =~= t.drop_first());
        } else {
            assert(rest =~= t);
        }
    }
    let two = te - rs >= 2;
    proof {
        if two {
            assert(rest[0] == w@[rs as int] && rest[1] == w@[rs + 1]);
            assert(rest.skip(2) =~= w@.subrange(rs + 2, te as int));
        }
    }
    let m = if two && w[rs] == '0' && (w[rs + 1] == 'x' || w[rs + 1] == 'X') {
        parse_digits(w, rs + 2, te, 16, true)
    } else if two && w[rs] == '0' && (w[rs + 1] == 'o' || w[rs + 1] == 'O') {
        parse_digits(w, rs + 2, te, 8, true)
    } else if two && w[rs] == '0' && (w[rs + 1] == 'b' || w[rs + 1] == 'B') {
        parse_digits(w, rs + 2, te, 2, true)
    } else {
        let n = parse_digits(w, rs, te, 10, false);
        proof {
            if rs < te {
                assert(rest[0] == w@[rs as int]);
            }
        }
        match n {
            Some(v) => if w[rs] == '0' && v != 0 {
                None
            } else {
                Some(v)
            },
            None => None,
        }
    };
    match m {
        Some(n) => if neg {
            if n == 0x8000_0000_0000_0000 {
                Some(i64::MIN)
            } else {
                Some(-(n as i64))
            }
        } else {
            if n > 0x7FFF_FFFF_FFFF_FFFF {
                None
            } else {
                Some(n as i64)
            }
        },
        None => None,
    }
}

/// The decimal value of `c`, see `unicode_decimal`.
fn decimal_value(c: char) -> (r: i32)
    ensures
        r == unicode_decimal(c),
{
    let zs: [u32; 68] = [
        0x30, 0x660, 0x6F0, 0x7C0, 0x966, 0x9E6, 0xA66, 0xAE6,
        0xB66, 0xBE6, 0xC66, 0xCE6, 0xD66, 0xDE6, 0xE50, 0xED0,
        0xF20, 0x1040, 0x1090, 0x17E0, 0x1810, 0x1946, 0x19D0, 0x1A80,
        0x1A90, 0x1B50, 0x1BB0, 0x1C40, 0x1C50, 0xA620, 0xA8D0, 0xA900,
        0xA9D0, 0xA9F0, 0xAA50, 0xABF0, 0xFF10, 0x104A0, 0x10D30, 0x11066,
        0x110F0, 0x11136, 0x111D0, 0x112F0, 0x11450, 0x114D0, 0x11650, 0x116C0,
        0x11730, 0x118E0, 0x11950, 0x11C50, 0x11D50, 0x11DA0, 0x11F50, 0x16A60,
        0x16AC0, 0x16B50, 0x1D7CE, 0x1D7D8, 0x1D7E2, 0x1D7EC, 0x1D7F6, 0x1E140,
        0x1E2F0, 0x1E4F0, 0x1E950, 0x1FBF0,
    ];
    proof {
        assert(zs@ =~= decimal_zeros());
        assert(decimal_zeros().skip(0) =~= decimal_zeros());
    }
    let v = c as u32;
    if v < 0x30 {
        return -1;
    }
    let mut i: usize = 0;
    while i < 68
        invariant
            i <= 68,
            zs@ == decimal_zeros(),
            v == c as int,
            unicode_decimal(c) == decimal_in(decimal_zeros().skip(i as int), v as int),
        decreases 68 - i,
    {
        proof {
            assert(decimal_zeros().skip(i as int).drop_first() =~= decimal_zeros().skip(i + 1));
            assert(decimal_zeros().skip(i as int)[0] == zs[i as int]);
        }
        let z = zs[i];
        if z <= v && v < z + 10 {
            return (v - z) as i32;
        }
        i = i + 1;
    }
    proof {
        assert(decimal_zeros().skip(68) =~= Seq::<u32>::empty());
    }
    -1
}

/// `w[start..end]` with every decimal digit replaced by the ASCII digit of the same value.
fn ascii_form(w: &Vec<char>, start: usize, end: usize) -> (v: Vec<char>)
    requires
        start <= end <= w@.len(),
    ensures
        v@ == ascii_digits(w@.subrange(start as int, end as int)),
{
    let mut v: Vec<char> = Vec::new();
    let mut i = start;
    while i < end
        invariant
            start <= i <= end <= w@.len(),
            v@ == ascii_digits(w@.subrange(start as int, i as int)),
        decreases end - i,
    {
        let c = w[i];
        let d = decimal_value(c);
        let a = if d < 0 {
            c
        } else if d == 0 {
            '0'
        } else if d == 1 {
            '1'
        } else if d == 2 {
            '2'
        } else if d == 3 {
            '3'
        } else if d == 4 {
            '4'
        } else if d == 5 {
            '5'
        } else if d == 6 {
            '6'
        } else if d == 7 {
            '7'
        } else if d == 8 {
            '8'
        } else {
            '9'
        };
        v.push(a);
        proof {
            assert(w@.subrange(start as int, i + 1) =~= w@.subrange(start as int, i as int).push(c));
            assert(ascii_digits(w@.subrange(start as int, i + 1)) =~= ascii_digits(
                w@.subrange(start as int, i as int),
            ).push(to_ascii_digit(c)));
        }
        i = i + 1;
    }
    v
}

/// Reads `w[start..end]` as an integer literal, see `int_literal`.
pub(crate) fn parse_literal(w: &Vec<char>, start: usize, end: usize) -> (r: Option<i64>)
    requires
        start <= end <= w@.len(),
    ensures
        opt_int(r) == int_literal(w@.subrange(start as int, end as int)),
{
    let v = ascii_form(w, start, end);
    proof {
        assert(v@.subrange(0, v@.len() as int) =~= v@);
    }
    parse_ascii_literal(&v, 0, v.len())
}

/// The literal values of words with one more word at the end.
proof fn lemma_literal_values_push(ws: Seq<Seq<char>>, w: Seq<char>)
    ensures
        literal_values(ws.push(w)) == literal_values(ws) + match int_literal(w) {
            Some(v) => seq![v as i64],
            None => Seq::<i64>::empty(),
        },
    decreases ws.len(),
{
    if ws.len() == 0 {
        assert(ws.push(w).drop_first() =~= Seq::<Seq<char>>::empty());
        assert(literal_values(Seq::<Seq<char>>::empty()) == Seq::<i64>::empty());
        assert(ws.push(w)[0] == w);
        assert(literal_values(ws) == Seq::<i64>::empty());
        match int_literal(w) {
            Some(v) => {
                assert(literal_values(ws.push(w)) =~= seq![v as i64]);
            },
            None => {
                assert(literal_values(ws.push(w)) =~= Seq::<i64>::empty());
            },
        }
    } else {
        assert(ws.push(w).drop_first() =~= ws.drop_first().push(w));
        lemma_literal_values_push(ws.drop_first(), w);
        assert(ws.push(w)[0] == ws[0]);
        match int_literal(ws[0]) {
            Some(v) => {
                match int_literal(w) {
                    Some(u) => {
                        assert(literal_values(ws.push(w)) =~= literal_values(ws) + seq![u as i64]);
                    },
                    None => {
                        assert(literal_values(ws.push(w)) =~= literal_values(ws) + Seq::<i64>::empty());
                    },
                }
            },
            None => {},
        }
    }
}

/// Words of a suffix that starts with white space.
proof fn lemma_words_skip_space(v: Seq<char>, i: int)
    requires
        0 <= i < v.len(),
        is_white_space(v[i]),
    ensures
        words(v.skip(i)) == words(v.skip(i + 1)),
{
    assert(v.skip(i)[0] == v[i]);
    assert(v.skip(i).drop_first() =~= v.skip(i + 1));
}

/// Words of a suffix that starts with the word `v[i..j]`.
proof fn lemma_words_skip_word(v: Seq<char>, i: int, j: int)
    requires
        0 <= i < j <= v.len(),
        forall|k: int| i <= k < j ==> !is_white_space(#[trigger] v[k]),
        j == v.len() || is_white_space(v[j]),
    ensures
        words(v.skip(i)) == seq![v.subrange(i, j)] + words(v.skip(j)),
{
    let s = v.skip(i);
    assert forall|k: int| 0 <= k < j - i implies !is_white_space(#[trigger] s[k]) by {
        assert(s[k] == v[i + k]);
    }
    if j < v.len() {
        assert(s[j - i] == v[j]);
    }
    lemma_word_len_is(s, j - i);
    assert(s[0] == v[i]);
    assert(s.take(j - i) =~= v.subrange(i, j));
    assert(s.skip(j - i) =~= v.skip(j));
}

/// Splits a command line into the position of its first word and the values of the integer
/// literals among its other words. `None` when the line holds no word.
pub fn split_command(v: &Vec<char>) -> (r: Option<(usize, usize, Vec<i64>)>)
    ensures
        r is None <==> words(v@).len() == 0,
        r matches Some((s, e, args)) ==> {
            &&& s <= e <= v@.len()
            &&& v@.subrange(s as int, e as int) == words(v@)[0]
            &&& args@ == literal_values(words(v@).drop_first())
        },
{
    let n = v.len();
    let mut i: usize = 0;
    let mut first: Option<(usize, usize)> = None;
    let mut args: Vec<i64> = Vec::new();
    let ghost mut done: Seq<Seq<char>> = Seq::empty();
    proof {
        assert(v@.skip(0) =~= v@);
    }
    while i < n
        invariant
            n == v@.len(),
            i <= n,
            done + words(v@.skip(i as int)) == words(v@),
            first is None <==> done.len() == 0,
            first matches Some((s, e)) ==> s <= e <= n && v@.subrange(s as int, e as int) == done[0],
            done.len() > 0 ==> args@ == literal_values(done.drop_first()),
            done.len() == 0 ==> args@.len() == 0,
        decreases n - i,
    {
        if char_is_whitespace(v[i]) {
            proof {
                lemma_words_skip_space(v@, i as int);
            }
            i = i + 1;
        } else {
            let mut j = i + 1;
            while j < n && !char_is_whitespace(v[j])
                invariant
                    n == v@.len(),
                    i < j <= n,
                    forall|k: int| i <= k < j ==> !is_white_space(#[trigger] v@[k]),
                decreases n - j,
            {
                j = j + 1;
            }
            proof {
                lemma_words_skip_word(v@, i as int, j as int);
                assert((done + words(v@.skip(i as int)))[done.len() as int] == v@.subrange(i as int, j as int));
            }
            let ghost word = v@.subrange(i as int, j as int);
            if first.is_none() {
                first = Some((i, j));
            } else {
                proof {
                    assert(words(v@)[done.len() as int] == word);
                }
                let lit = parse_literal(v, i, j);
                proof {
                    lemma_literal_values_push(done.drop_first(), word);
                    assert(done.push(word).drop_first() =~= done.drop_first().push(word));
                }
                match lit {
                    Some(x) => {
                        args.push(x);
                        proof {
                            assert(args@ =~= literal_values(done.drop_first()) + seq![x]);
                        }
                    },
                    None => {
                        proof {
                            assert(args@ =~= literal_values(done.drop_first()) + Seq::<i64>::empty());
                        }
                    },
                }
            }
            proof {
                assert(done.push(word) + words(v@.skip(j as int)) =~= done + words(v@.skip(i as int)));
                if done.len() == 0 {
                    assert(done.push(word).drop_first() =~= Seq::<Seq<char>>::empty());
                    assert(literal_values(Seq::<Seq<char>>::empty()) == Seq::<i64>::empty());
                }
                done = done.push(word);
            }
            i = j;
        }
    }
    proof {
        assert(v@.skip(n as int) =~= Seq::<char>::empty());
        assert(words(Seq::<char>::empty()) == Seq::<Seq<char>>::empty());
        assert(done =~= words(v@));
    }
    match first {
        Some((s, e)) => Some((s, e, args)),
        None => None,
    }
}

/// Whether `v[s..e]` spells exactly `lit`.
pub fn chars_equal(v: &Vec<char>, s: usize, e: usize, lit: &str) -> (r: bool)
    requires
        s <= e <= v@.len(),
    ensures
        r == (v@.subrange(s as int, e as int) == lit@),
{
    let n = lit.unicode_len();
    if e - s != n {
        proof {
            assert(v@.subrange(s as int, e as int).len() != lit@.len());
        }
        return false;
    }
    let mut k: usize = 0;
    while k < n
        invariant
            n == lit@.len(),
            e - s == n,
            s <= e <= v@.len(),
            k <= n,
            forall|j: int| 0 <= j < k ==> v@[s + j] == lit@[j],
        decreases n - k,
    {
        if v[s + k] != lit.get_char(k) {
            proof {
                assert(v@.subrange(s as int, e as int)[k as int] != lit@[k as int]);
            }
            return false;
        }
        k = k + 1;
    }
    proof {
        assert(v@.subrange(s as int, e as int) =~= lit@);
    }
    true
}

/// Position of the first occurrence of the two characters `a`, `b` (in a row) in `s`, if any.
pub open spec fn first_pair(s: Seq<char>, a: char, b: char) -> Option<int>
    decreases s.len(),
{
    if s.len() < 2 {
        None
    } else if s[0] == a && s[1] == b {
        Some(0)
    } else {
        match first_pair(s.drop_first(), a, b) {
            Some(k) => Some(k + 1),
            None => None,
        }
    }
}

/// `first_pair` finds the first occurrence of the two characters, and `None` means there is none.
pub proof fn lemma_first_pair(s: Seq<char>, a: char, b: char)
    ensures
        first_pair(s, a, b) matches Some(k) ==> 0 <= k && k + 2 <= s.len() && s[k] == a && s[k + 1] == b
            && forall|j: int| 0 <= j < k ==> !(#[trigger] s[j] == a && s[j + 1] == b),
        first_pair(s, a, b) is None ==> forall|j: int| 0 <= j && j + 1 < s.len() ==> !(#[trigger] s[j] == a && s[j + 1] == b),
    decreases s.len(),
{
    if s.len() >= 2 && !(s[0] == a && s[1] == b) {
        let t = s.drop_first();
        lemma_first_pair(t, a, b);
        assert forall|j: int| 0 < j && j + 1 < s.len() implies #[trigger] s[j] == t[j - 1] && s[j + 1] == t[j] by {}
    }
}

/// Position of the first `::` in `s`, if any.
pub open spec fn first_sep(s: Seq<char>) -> Option<int> {
    first_pair(s, ':', ':')
}

/// `first_sep` finds the first `::`, and `None` means there is none.
pub proof fn lemma_first_sep(s: Seq<char>)
    ensures
        first_sep(s) matches Some(k) ==> 0 <= k && k + 2 <= s.len() && s[k] == ':' && s[k + 1] == ':' && forall|
            j: int,
        | 0 <= j < k ==> !(#[trigger] s[j] == ':' && s[j + 1] == ':'),
        first_sep(s) is None ==> forall|j: int| 0 <= j && j + 1 < s.len() ==> !(#[trigger] s[j] == ':' && s[j + 1] == ':'),
{
    lemma_first_pair(s, ':', ':');
}

/// `s` split at every `::`, as `str::split("::")` yields the pieces.
pub open spec fn split_sep(s: Seq<char>) -> Seq<Seq<char>>
    decreases s.len(),
{
    match first_sep(s) {
        None => seq![s],
        Some(k) => {
            proof {
                lemma_first_sep(s);
            }
            seq![s.take(k)] + split_sep(s.skip(k + 2))
        },
    }
}

/// The two status texts of a `status` line: the second `::`-separated piece, and the third one
/// or nothing.
pub open spec fn status_fields(s: Seq<char>) -> (Seq<char>, Seq<char>) {
    let parts = split_sep(s);
    (parts[1], if parts.len() > 2 { parts[2] } else { Seq::empty() })
}

/// Position of the first `a`, `b` pair in `v[from..]`.
pub fn find_pair(v: &Vec<char>, from: usize, a: char, b: char) -> (r: Option<usize>)
    requires
        from <= v@.len(),
    ensures
        match first_pair(v@.skip(from as int), a, b) {
            Some(k) => r is Some && r->0 == from + k,
            None => r is None,
        },
{
    let ghost t = v@.skip(from as int);
    let n = v.len();
    let mut i = from;
    proof {
        assert(t.len() == n - from);
    }
    while n - i >= 2
        invariant
            n == v@.len(),
            from <= i <= n,
            t == v@.skip(from as int),
            forall|j: int| from <= j < i ==> !(#[trigger] v@[j] == a && v@[j + 1] == b),
        decreases n - i,
    {
        if v[i] == a && v[i + 1] == b {
            proof {
                lemma_first_pair(t, a, b);
                assert(t[i - from] == v@[i as int] && t[i - from + 1] == v@[i + 1]);
                match first_pair(t, a, b) {
                    Some(k) => {
                        if k < i - from {
                            assert(t[k] == v@[from + k] && t[k + 1] == v@[from + k + 1]);
                        }
                        if k > i - from {
                            assert(!(t[i - from] == a && t[i - from + 1] == b));
                        }
                    },
                    None => {
                        assert(!(t[i - from] == a && t[i - from + 1] == b));
                    },
                }
            }
            return Some(i);
        }
        i = i + 1;
    }
    proof {
        lemma_first_pair(t, a, b);
        match first_pair(t, a, b) {
            Some(k) => {
                assert(t[k] == v@[from + k] && t[k + 1] == v@[from + k + 1]);
            },
            None => {},
        }
    }
    None
}

/// Position of the first `::` in `v[from..]`.
pub fn find_sep(v: &Vec<char>, from: usize) -> (r: Option<usize>)
    requires
        from <= v@.len(),
    ensures
        match first_sep(v@.skip(from as int)) {
            Some(k) => r is Some && r->0 == from + k,
            None => r is None,
        },
{
    find_pair(v, from, ':', ':')
}

/// Splitting at the first `::` gives the text before it and the split of the rest.
proof fn lemma_split_sep(s: Seq<char>)
    ensures
        split_sep(s).len() >= 1,
        split_sep(s)[0] == match first_sep(s) {
            Some(k) => s.take(k),
            None => s,
        },
        (split_sep(s).len() > 1) == (first_sep(s) is Some),
        first_sep(s) matches Some(k) ==> forall|i: int|
            1 <= i < split_sep(s).len() ==> #[trigger] split_sep(s)[i] == split_sep(s.skip(k + 2))[i - 1],
        first_sep(s) matches Some(k) ==> split_sep(s).len() == split_sep(s.skip(k + 2)).len() + 1,
{
    lemma_first_sep(s);
    match first_sep(s) {
        Some(k) => {
            let rest = split_sep(s.skip(k + 2));
            lemma_split_sep_len(s.skip(k + 2));
            assert(split_sep(s) == seq![s.take(k)] + rest);
        },
        None => {},
    }
}

/// Splitting at `::` gives at least one field.
proof fn lemma_split_sep_len(s: Seq<char>)
    ensures
        split_sep(s).len() >= 1,
    decreases s.len(),
{
    lemma_first_sep(s);
    match first_sep(s) {
        Some(k) => {
            lemma_split_sep_len(s.skip(k + 2));
        },
        None => {},
    }
}

/// The `::`-separated piece of `s` that starts at `from`, and where the next piece starts.
fn sep_piece(s: &str, v: &Vec<char>, from: usize) -> (r: (String, Option<usize>))
    requires
        v@ == s@,
        from <= v@.len(),
    ensures
        r.0@ == split_sep(v@.skip(from as int))[0],
        match first_sep(v@.skip(from as int)) {
            Some(k) => r.1 is Some && r.1->0 == from + k + 2,
            None => r.1 is None,
        },
{
    let ghost t = v@.skip(from as int);
    proof {
        lemma_first_sep(t);
        lemma_split_sep(t);
        assert(v@.len() == v.len());
        assert(t.len() == v@.len() - from);
    }
    match find_sep(v, from) {
        Some(e) => {
            proof {
                assert(t.take(e - from) =~= v@.subrange(from as int, e as int));
            }
            (String::from_str(s.substring_char(from, e)), Some(e + 2))
        },
        None => {
            proof {
                assert(t =~= v@.subrange(from as int, v@.len() as int));
            }
            (String::from_str(s.substring_char(from, v.len())), None)
        },
    }
}

/// The status texts of `s`, which must hold a `::`.
pub fn split_status(s: &str, v: &Vec<char>) -> (r: (String, String))
    requires
        v@ == s@,
        first_sep(v@) is Some,
    ensures
        (r.0@, r.1@) == status_fields(v@),
{
    let ghost sv = v@;
    proof {
        assert(sv.skip(0) =~= sv);
        assert(v@.len() == v.len());
        lemma_first_sep(sv);
        lemma_split_sep(sv);
    }
    let first = find_sep(v, 0);
    let a = match first {
        Some(k1) => k1 + 2,
        None => {
            proof {
                assert(false);
            }
            0
        },
    };
    let ghost t = sv.skip(a as int);
    proof {
        lemma_first_sep(t);
        lemma_split_sep(t);
        assert(split_sep(sv)[1] == split_sep(t)[0]);
    }
    let (left, next) = sep_piece(s, v, a);
    match next {
        None => (left, String::new()),
        Some(c) => {
            proof {
                let k2 = first_sep(t)->0;
                assert(t.skip(k2 + 2) =~= sv.skip(c as int));
                assert(split_sep(sv)[2] == split_sep(t)[1]);
            }
            let (right, _) = sep_piece(s, v, c);
            (left, right)
        },
    }
}

} // verus!
