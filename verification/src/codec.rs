//! Lossless codec between arbitrary byte strings and editable text.
//!
//! Printable ASCII and well-formed multi-byte UTF-8 sequences pass through
//! verbatim; a backslash is doubled; every other byte becomes a hex escape
//! of the form `\xHH`. Decoding inverts the mapping and rejects malformed
//! or truncated escapes.

use vstd::prelude::*;

verus! {

/// Rejection of text whose escapes are malformed or truncated.
#[derive(Clone, Copy, Debug, PartialEq, Eq, Structural)]
pub struct DecodeError;

/// The escape lead-in: a backslash.
pub const ESCAPE: u8 = 92;

/// The byte that tags a hex escape: lower-case `x`.
pub const HEX_TAG: u8 = 120;

/// A byte rendered verbatim on its own: printable ASCII other than backslash.
pub open spec fn is_printable(b: u8) -> bool {
    0x20 <= b <= 0x7e && b != ESCAPE
}

/// A UTF-8 continuation byte.
pub open spec fn is_cont(b: u8) -> bool {
    0x80 <= b <= 0xbf
}

/// A well-formed two-byte UTF-8 sequence.
pub open spec fn valid2(a: u8, b: u8) -> bool {
    0xc2 <= a <= 0xdf && is_cont(b)
}

/// A well-formed three-byte UTF-8 sequence.
pub open spec fn valid3(a: u8, b: u8, c: u8) -> bool {
    ||| a == 0xe0 && 0xa0 <= b <= 0xbf && is_cont(c)
    ||| 0xe1 <= a <= 0xec && is_cont(b) && is_cont(c)
    ||| a == 0xed && 0x80 <= b <= 0x9f && is_cont(c)
    ||| 0xee <= a <= 0xef && is_cont(b) && is_cont(c)
}

/// A well-formed four-byte UTF-8 sequence.
pub open spec fn valid4(a: u8, b: u8, c: u8, d: u8) -> bool {
    ||| a == 0xf0 && 0x90 <= b <= 0xbf && is_cont(c) && is_cont(d)
    ||| 0xf1 <= a <= 0xf3 && is_cont(b) && is_cont(c) && is_cont(d)
    ||| a == 0xf4 && 0x80 <= b <= 0x8f && is_cont(c) && is_cont(d)
}

/// The upper-case hex digit for a value below sixteen.
pub open spec fn hex_digit_of(n: u8) -> u8
    recommends
        n < 16,
{
    if n < 10 {
        (48 + n) as u8
    } else {
        (55 + n) as u8
    }
}

/// Whether a byte is a hex digit accepted in an escape.
pub open spec fn is_hex_digit(b: u8) -> bool {
    ||| 48 <= b <= 57
    ||| 65 <= b <= 70
    ||| 97 <= b <= 102
}

/// The value of a hex digit.
pub open spec fn hex_val(b: u8) -> u8
    recommends
        is_hex_digit(b),
{
    if 48 <= b <= 57 {
        (b - 48) as u8
    } else if 65 <= b <= 70 {
        (b - 55) as u8
    } else {
        (b - 87) as u8
    }
}

/// The four-byte hex escape of one byte.
pub open spec fn escape_of(b: u8) -> Seq<u8> {
    seq![ESCAPE, HEX_TAG, hex_digit_of(b / 16), hex_digit_of(b % 16)]
}

/// The text encoding of a byte string.
pub open spec fn encode_spec(s: Seq<u8>) -> Seq<u8>
    decreases s.len(),
{
    if s.len() == 0 {
        Seq::empty()
    } else if s[0] == ESCAPE {
        seq![ESCAPE, ESCAPE] + encode_spec(s.skip(1))
    } else if is_printable(s[0]) {
        seq![s[0]] + encode_spec(s.skip(1))
    } else if s.len() >= 2 && valid2(s[0], s[1]) {
        seq![s[0], s[1]] + encode_spec(s.skip(2))
    } else if s.len() >= 3 && valid3(s[0], s[1], s[2]) {
        seq![s[0], s[1], s[2]] + encode_spec(s.skip(3))
    } else if s.len() >= 4 && valid4(s[0], s[1], s[2], s[3]) {
        seq![s[0], s[1], s[2], s[3]] + encode_spec(s.skip(4))
    } else {
        escape_of(s[0]) + encode_spec(s.skip(1))
    }
}

/// The byte string a text decodes to, or `None` on a malformed escape.
pub open spec fn decode_spec(t: Seq<u8>) -> Option<Seq<u8>>
    decreases t.len(),
{
    if t.len() == 0 {
        Some(Seq::empty())
    } else if t[0] != ESCAPE {
        match decode_spec(t.skip(1)) {
            Some(r) => Some(seq![t[0]] + r),
            None => None,
        }
    } else if t.len() >= 2 && t[1] == ESCAPE {
        match decode_spec(t.skip(2)) {
            Some(r) => Some(seq![ESCAPE] + r),
            None => None,
        }
    } else if t.len() >= 4 && t[1] == HEX_TAG && is_hex_digit(t[2]) && is_hex_digit(t[3]) {
        match decode_spec(t.skip(4)) {
            Some(r) => Some(seq![(hex_val(t[2]) * 16 + hex_val(t[3])) as u8] + r),
            None => None,
        }
    } else {
        None
    }
}

/// Prepends a prefix under the option returned by `decode_spec`.
pub open spec fn prefixed(prefix: Seq<u8>, o: Option<Seq<u8>>) -> Option<Seq<u8>> {
    match o {
        Some(r) => Some(prefix + r),
        None => None,
    }
}

proof fn lemma_skip_twice(s: Seq<u8>, i: int, n: int)
    requires
        0 <= i,
        0 <= n,
        i + n <= s.len(),
    ensures
        s.skip(i).skip(n) == s.skip(i + n),
{
    assert(s.skip(i).skip(n) =~= s.skip(i + n));
}

/// Bytes free of backslashes decode verbatim, whatever follows them.
proof fn lemma_decode_verbatim(c: Seq<u8>, u: Seq<u8>)
    requires
        forall|i: int| 0 <= i < c.len() ==> c[i] != ESCAPE,
    ensures
        decode_spec(c + u) == prefixed(c, decode_spec(u)),
    decreases c.len(),
{
    if c.len() == 0 {
        assert(c + u =~= u);
        if decode_spec(u) is Some {
            assert(c + decode_spec(u)->Some_0 =~= decode_spec(u)->Some_0);
        }
    } else {
        let t = c + u;
        assert(t[0] == c[0]);
        assert(t.skip(1) =~= c.skip(1) + u);
        lemma_decode_verbatim(c.skip(1), u);
        if decode_spec(u) is Some {
            let r = decode_spec(u)->Some_0;
            assert(seq![c[0]] + (c.skip(1) + r) =~= c + r);
        }
    }
}

proof fn lemma_hex_digit_round(n: u8)
    requires
        n < 16,
    ensures
        is_hex_digit(hex_digit_of(n)),
        hex_val(hex_digit_of(n)) == n,
{
}

/// A hex escape decodes to its byte, whatever follows it.
proof fn lemma_escape_decodes(b: u8, u: Seq<u8>)
    ensures
        decode_spec(escape_of(b) + u) == prefixed(seq![b], decode_spec(u)),
{
    let t = escape_of(b) + u;
    lemma_hex_digit_round(b / 16);
    lemma_hex_digit_round(b % 16);
    assert(t[0] == ESCAPE && t[1] == HEX_TAG && t[2] == hex_digit_of(b / 16) && t[3]
        == hex_digit_of(b % 16));
    assert(t.skip(4) =~= u);
    vstd::arithmetic::div_mod::lemma_fundamental_div_mod(b as int, 16);
    assert(hex_val(t[2]) * 16 + hex_val(t[3]) == b);
}

/// Round-trip law: decoding the encoding of any byte string gives it back.
pub proof fn lemma_round_trip(s: Seq<u8>)
    ensures
        decode_spec(encode_spec(s)) == Some(s),
    decreases s.len(),
{
    if s.len() == 0 {
        assert(encode_spec(s) == Seq::<u8>::empty());
    } else if s[0] == ESCAPE {
        lemma_round_trip(s.skip(1));
        let t = seq![ESCAPE, ESCAPE] + encode_spec(s.skip(1));
        assert(t[0] == ESCAPE && t[1] == ESCAPE);
        assert(t.skip(2) =~= encode_spec(s.skip(1)));
        assert(seq![ESCAPE] + s.skip(1) =~= s);
    } else if is_printable(s[0]) {
        lemma_round_trip(s.skip(1));
        let c = seq![s[0]];
        lemma_decode_verbatim(c, encode_spec(s.skip(1)));
        assert(c + s.skip(1) =~= s);
    } else if s.len() >= 2 && valid2(s[0], s[1]) {
        lemma_round_trip(s.skip(2));
        let c = seq![s[0], s[1]];
        lemma_decode_verbatim(c, encode_spec(s.skip(2)));
        assert(c + s.skip(2) =~= s);
    } else if s.len() >= 3 && valid3(s[0], s[1], s[2]) {
        lemma_round_trip(s.skip(3));
        let c = seq![s[0], s[1], s[2]];
        lemma_decode_verbatim(c, encode_spec(s.skip(3)));
        assert(c + s.skip(3) =~= s);
    } else if s.len() >= 4 && valid4(s[0], s[1], s[2], s[3]) {
        lemma_round_trip(s.skip(4));
        let c = seq![s[0], s[1], s[2], s[3]];
        lemma_decode_verbatim(c, encode_spec(s.skip(4)));
        assert(c + s.skip(4) =~= s);
    } else {
        lemma_round_trip(s.skip(1));
        lemma_escape_decodes(s[0], encode_spec(s.skip(1)));
        assert(seq![s[0]] + s.skip(1) =~= s);
    }
}

fn hex_digit(n: u8) -> (r: u8)
    requires
        n < 16,
    ensures
        r == hex_digit_of(n),
{
    if n < 10 {
        48 + n
    } else {
        55 + n
    }
}

fn hex_value(b: u8) -> (r: u8)
    requires
        is_hex_digit(b),
    ensures
        r == hex_val(b),
        r < 16,
{
    if 48 <= b && b <= 57 {
        b - 48
    } else if 65 <= b && b <= 70 {
        b - 55
    } else {
        b - 87
    }
}

fn is_hex(b: u8) -> (r: bool)
    ensures
        r == is_hex_digit(b),
{
    (48 <= b && b <= 57) || (65 <= b && b <= 70) || (97 <= b && b <= 102)
}

/// Encodes a byte string as editable text.
pub fn encode(input: &Vec<u8>) -> (r: Vec<u8>)
    ensures
        r@ == encode_spec(input@),
{
    let mut out: Vec<u8> = Vec::new();
    let mut i: usize = 0;
    let n: usize = input.len();
    proof {
        assert(input@.skip(0) =~= input@);
        assert(out@ + encode_spec(input@) =~= encode_spec(input@));
    }
    while i < n
        invariant
            i <= n,
            n == input@.len(),
            encode_spec(input@) == out@ + encode_spec(input@.skip(i as int)),
        decreases n - i,
    {
        let ghost pre = out@;
        let ghost rest = input@.skip(i as int);
        let b = input[i];
        let rem: usize = n - i;
        proof {
            assert(rest[0] == b);
            assert(rest.len() == rem);
        }
        if b == ESCAPE {
            out.push(ESCAPE);
            out.push(ESCAPE);
            proof {
                lemma_skip_twice(input@, i as int, 1);
                assert(out@ =~= pre + seq![ESCAPE, ESCAPE]);
                assert(encode_spec(rest) == seq![ESCAPE, ESCAPE] + encode_spec(
                    input@.skip(i + 1),
                ));
                assert(pre + (seq![ESCAPE, ESCAPE] + encode_spec(input@.skip(i + 1))) =~= out@
                    + encode_spec(input@.skip(i + 1)));
            }
            i = i + 1;
        } else if 0x20 <= b && b <= 0x7e {
            out.push(b);
            proof {
                lemma_skip_twice(input@, i as int, 1);
                assert(out@ =~= pre + seq![b]);
                assert(encode_spec(rest) == seq![b] + encode_spec(input@.skip(i + 1)));
                assert(pre + (seq![b] + encode_spec(input@.skip(i + 1))) =~= out@ + encode_spec(
                    input@.skip(i + 1),
                ));
            }
            i = i + 1;
        } else {
            let b1: u8 = if rem >= 2 {
                input[i + 1]
            } else {
                0
            };
            let b2: u8 = if rem >= 3 {
                input[i + 2]
            } else {
                0
            };
            let b3: u8 = if rem >= 4 {
                input[i + 3]
            } else {
                0
            };
            proof {
                if rem >= 2 {
                    assert(rest[1] == b1);
                }
                if rem >= 3 {
                    assert(rest[2] == b2);
                }
                if rem >= 4 {
                    assert(rest[3] == b3);
                }
            }
            if rem >= 2 && 0xc2 <= b && b <= 0xdf && 0x80 <= b1 && b1 <= 0xbf {
                out.push(b);
                out.push(b1);
                proof {
                    lemma_skip_twice(input@, i as int, 2);
                    assert(out@ =~= pre + seq![b, b1]);
                    assert(encode_spec(rest) == seq![b, b1] + encode_spec(input@.skip(i + 2)));
                    assert(pre + (seq![b, b1] + encode_spec(input@.skip(i + 2))) =~= out@
                        + encode_spec(input@.skip(i + 2)));
                }
                i = i + 2;
            } else if rem >= 3 && ((b == 0xe0 && 0xa0 <= b1 && b1 <= 0xbf) || (0xe1 <= b && b
                <= 0xec && 0x80 <= b1 && b1 <= 0xbf) || (b == 0xed && 0x80 <= b1 && b1 <= 0x9f) || (
            0xee <= b && b <= 0xef && 0x80 <= b1 && b1 <= 0xbf)) && 0x80 <= b2 && b2 <= 0xbf {
                out.push(b);
                out.push(b1);
                out.push(b2);
                proof {
                    lemma_skip_twice(input@, i as int, 3);
                    assert(out@ =~= pre + seq![b, b1, b2]);
                    assert(encode_spec(rest) == seq![b, b1, b2] + encode_spec(input@.skip(i + 3)));
                    assert(pre + (seq![b, b1, b2] + encode_spec(input@.skip(i + 3))) =~= out@
                        + encode_spec(input@.skip(i + 3)));
                }
                i = i + 3;
            } else if rem >= 4 && ((b == 0xf0 && 0x90 <= b1 && b1 <= 0xbf) || (0xf1 <= b && b
                <= 0xf3 && 0x80 <= b1 && b1 <= 0xbf) || (b == 0xf4 && 0x80 <= b1 && b1 <= 0x8f))
                && 0x80 <= b2 && b2 <= 0xbf && 0x80 <= b3 && b3 <= 0xbf {
                out.push(b);
                out.push(b1);
                out.push(b2);
                out.push(b3);
                proof {
                    lemma_skip_twice(input@, i as int, 4);
                    assert(out@ =~= pre + seq![b, b1, b2, b3]);
                    assert(encode_spec(rest) == seq![b, b1, b2, b3] + encode_spec(
                        input@.skip(i + 4),
                    ));
                    assert(pre + (seq![b, b1, b2, b3] + encode_spec(input@.skip(i + 4))) =~= out@
                        + encode_spec(input@.skip(i + 4)));
                }
                i = i + 4;
            } else {
                out.push(ESCAPE);
                out.push(HEX_TAG);
                out.push(hex_digit(b / 16));
                out.push(hex_digit(b % 16));
                proof {
                    lemma_skip_twice(input@, i as int, 1);
                    assert(out@ =~= pre + escape_of(b));
                    assert(encode_spec(rest) == escape_of(b) + encode_spec(input@.skip(i + 1)));
                    assert(pre + (escape_of(b) + encode_spec(input@.skip(i + 1))) =~= out@
                        + encode_spec(input@.skip(i + 1)));
                }
                i = i + 1;
            }
        }
    }
    proof {
        assert(input@.skip(n as int) =~= Seq::<u8>::empty());
        assert(out@ + encode_spec(Seq::<u8>::empty()) =~= out@);
    }
    out
}

/// Decodes editable text back to the byte string it denotes; rejects
/// malformed or truncated escapes.
pub fn decode(text: &Vec<u8>) -> (r: Result<Vec<u8>, DecodeError>)
    ensures
        match r {
            Ok(bytes) => decode_spec(text@) == Some(bytes@),
            Err(_) => decode_spec(text@) is None,
        },
{
    let mut out: Vec<u8> = Vec::new();
    let mut i: usize = 0;
    let n: usize = text.len();
    proof {
        assert(text@.skip(0) =~= text@);
        if decode_spec(text@) is Some {
            assert(out@ + decode_spec(text@)->Some_0 =~= decode_spec(text@)->Some_0);
        }
    }
    while i < n
        invariant
            i <= n,
            n == text@.len(),
            decode_spec(text@) == prefixed(out@, decode_spec(text@.skip(i as int))),
        decreases n - i,
    {
        let ghost pre = out@;
        let ghost rest = text@.skip(i as int);
        let b = text[i];
        let rem: usize = n - i;
        proof {
            assert(rest[0] == b);
            assert(rest.len() == rem);
        }
        if b != ESCAPE {
            out.push(b);
            proof {
                lemma_skip_twice(text@, i as int, 1);
                assert(decode_spec(rest) == prefixed(seq![b], decode_spec(text@.skip(i + 1))));
                if decode_spec(text@.skip(i + 1)) is Some {
                    let r0 = decode_spec(text@.skip(i + 1))->Some_0;
                    assert(pre + (seq![b] + r0) =~= out@ + r0);
                }
            }
            i = i + 1;
        } else if rem >= 2 && text[i + 1] == ESCAPE {
            out.push(ESCAPE);
            proof {
                assert(rest[1] == ESCAPE);
                lemma_skip_twice(text@, i as int, 2);
                assert(decode_spec(rest) == prefixed(
                    seq![ESCAPE],
                    decode_spec(text@.skip(i + 2)),
                ));
                if decode_spec(text@.skip(i + 2)) is Some {
                    let r0 = decode_spec(text@.skip(i + 2))->Some_0;
                    assert(pre + (seq![ESCAPE] + r0) =~= out@ + r0);
                }
            }
            i = i + 2;
        } else if rem >= 4 && text[i + 1] == HEX_TAG && is_hex(text[i + 2]) && is_hex(
            text[i + 3],
        ) {
            let hi = hex_value(text[i + 2]);
            let lo = hex_value(text[i + 3]);
            let v: u8 = hi * 16 + lo;
            out.push(v);
            proof {
                assert(rest[1] == HEX_TAG && rest[2] == text@[i + 2] && rest[3] == text@[i + 3]);
                lemma_skip_twice(text@, i as int, 4);
                assert(decode_spec(rest) == prefixed(seq![v], decode_spec(text@.skip(i + 4))));
                if decode_spec(text@.skip(i + 4)) is Some {
                    let r0 = decode_spec(text@.skip(i + 4))->Some_0;
                    assert(pre + (seq![v] + r0) =~= out@ + r0);
                }
            }
            i = i + 4;
        } else {
            proof {
                if rem >= 2 {
                    assert(rest[1] == text@[i + 1]);
                }
                if rem >= 4 {
                    assert(rest[2] == text@[i + 2] && rest[3] == text@[i + 3]);
                }
                assert(decode_spec(rest) is None);
            }
            return Err(DecodeError);
        }
    }
    proof {
        assert(text@.skip(n as int) =~= Seq::<u8>::empty());
        assert(out@ + Seq::<u8>::empty() =~= out@);
    }
    Ok(out)
}

} // verus!
