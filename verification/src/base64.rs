//! Standard base64 (RFC 4648, with `=` padding), the text form in which image data travels
//! through the terminal.

use vstd::prelude::*;

use crate::shell::string_from_chars;

verus! {

/// The base64 digit of value `i` (only the low six bits are used).
pub open spec fn digit_char(i: u8) -> char {
    let k = i & 63u8;
    if k < 26 {
        ((65 + k) as u8) as char
    } else if k < 52 {
        ((97 + (k - 26)) as u8) as char
    } else if k < 62 {
        ((48 + (k - 52)) as u8) as char
    } else if k == 62 {
        '+'
    } else {
        '/'
    }
}

/// The base64 text of `s`: each group of three bytes becomes four digits of six bits each,
/// and a last group of one or two bytes is padded with `=`.
pub open spec fn base64_text(s: Seq<u8>) -> Seq<char>
    decreases s.len(),
{
    if s.len() == 0 {
        seq![]
    } else if s.len() == 1 {
        seq![digit_char(s[0] >> 2u8), digit_char((s[0] & 3u8) << 4u8), '=', '=']
    } else if s.len() == 2 {
        seq![
            digit_char(s[0] >> 2u8),
            digit_char(((s[0] & 3u8) << 4u8) | (s[1] >> 4u8)),
            digit_char((s[1] & 15u8) << 2u8),
            '=',
        ]
    } else {
        seq![
            digit_char(s[0] >> 2u8),
            digit_char(((s[0] & 3u8) << 4u8) | (s[1] >> 4u8)),
            digit_char(((s[1] & 15u8) << 2u8) | (s[2] >> 6u8)),
            digit_char(s[2] & 63u8),
        ] + base64_text(s.skip(3))
    }
}

/// The base64 digit of value `i`, see `digit_char`.
fn digit(i: u8) -> (c: char)
    ensures
        c == digit_char(i),
{
    let k = i & 63;
    if k < 26 {
        (65 + k) as char
    } else if k < 52 {
        (97 + (k - 26)) as char
    } else if k < 62 {
        (48 + (k - 52)) as char
    } else if k == 62 {
        '+'
    } else {
        '/'
    }
}

/// `bytes` in base64, see `base64_text`.
pub fn base64(bytes: &[u8]) -> (s: String)
    ensures
        s@ == base64_text(bytes@),
{
    let n = bytes.len();
    let mut out: Vec<char> = Vec::new();
    let mut i: usize = 0;
    proof {
        assert(bytes@.skip(0) =~= bytes@);
    }
    while i < n
        invariant
            i <= n,
            n == bytes@.len(),
            out@ + base64_text(bytes@.skip(i as int)) == base64_text(bytes@),
        decreases n - i,
    {
        let ghost before = out@;
        let ghost rest = bytes@.skip(i as int);
        let b0 = bytes[i];
        proof {
            assert(rest[0] == b0);
        }
        if n - i >= 3 {
            let b1 = bytes[i + 1];
            let b2 = bytes[i + 2];
            out.push(digit(b0 >> 2));
            out.push(digit(((b0 & 3) << 4) | (b1 >> 4)));
            out.push(digit(((b1 & 15) << 2) | (b2 >> 6)));
            out.push(digit(b2 & 63));
            proof {
                assert(rest[1] == b1 && rest[2] == b2);
                assert(rest.skip(3) =~= bytes@.skip(i + 3));
                assert(out@ =~= before + seq![
                    digit_char(b0 >> 2u8),
                    digit_char(((b0 & 3u8) << 4u8) | (b1 >> 4u8)),
                    digit_char(((b1 & 15u8) << 2u8) | (b2 >> 6u8)),
                    digit_char(b2 & 63u8),
                ]);
            }
            i = i + 3;
        } else if n - i == 2 {
            let b1 = bytes[i + 1];
            out.push(digit(b0 >> 2));
            out.push(digit(((b0 & 3) << 4) | (b1 >> 4)));
            out.push(digit((b1 & 15) << 2));
            out.push('=');
            proof {
                assert(rest[1] == b1);
                assert(bytes@.skip(i + 2) =~= Seq::<u8>::empty());
            }
            i = i + 2;
        } else {
            out.push(digit(b0 >> 2));
            out.push(digit((b0 & 3) << 4));
            out.push('=');
            out.push('=');
            proof {
                assert(bytes@.skip(i + 1) =~= Seq::<u8>::empty());
            }
            i = i + 1;
        }
    }
    proof {
        assert(bytes@.skip(n as int) =~= Seq::<u8>::empty());
        assert(out@ =~= base64_text(bytes@));
    }
    string_from_chars(out.as_slice())
}

} // verus!
