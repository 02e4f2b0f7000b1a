//! Text handling: UTF-8 validation of attribute bytes, and decimal rendering
//! of field identifiers for error messages.

use vstd::prelude::*;
use vstd::string::StringExecFns;
use vstd::string::StringSliceAdditionalSpecFns;

verus! {

/// The characters that a byte sequence decodes to, when it is valid UTF-8.
pub open spec fn utf8_text(bytes: Seq<u8>) -> Option<Seq<char>> {
    if vstd::utf8::valid_utf8(bytes) {
        Some(vstd::utf8::decode_utf8(bytes))
    } else {
        None
    }
}

/// Relies on std's `str::from_utf8`: it returns a string over exactly the given
/// bytes when they are valid UTF-8, and an error otherwise.
#[verifier::external_body]
fn utf8_str<'a>(v: &'a [u8]) -> (r: Option<&'a str>)
    ensures
        r is Some <==> vstd::utf8::valid_utf8(v@),
        (r matches Some(s) ==> s.spec_bytes() == v@),
{
    std::str::from_utf8(v).ok()
}

/// Decodes a byte buffer as UTF-8 text, returning `None` when it is not valid.
pub fn decode_text(v: &[u8]) -> (r: Option<String>)
    ensures
        r matches Some(s) ==> utf8_text(v@) == Some(s@),
        r is Some <==> utf8_text(v@) is Some,
{
    match utf8_str(v) {
        Some(s) => {
            proof {
                vstd::utf8::encode_utf8_decode_utf8(s@);
            }
            Some(s.to_owned())
        },
        None => None,
    }
}

/// The character for a single decimal digit.
pub open spec fn digit_char(d: int) -> char {
    if d == 0 {
        '0'
    } else if d == 1 {
        '1'
    } else if d == 2 {
        '2'
    } else if d == 3 {
        '3'
    } else if d == 4 {
        '4'
    } else if d == 5 {
        '5'
    } else if d == 6 {
        '6'
    } else if d == 7 {
        '7'
    } else if d == 8 {
        '8'
    } else {
        '9'
    }
}

/// The decimal digits of a non-negative number, most significant first.
pub open spec fn dec_digits(n: nat) -> Seq<char>
    decreases n,
{
    if n < 10 {
        seq![digit_char(n as int)]
    } else {
        dec_digits(n / 10) + seq![digit_char((n % 10) as int)]
    }
}

/// The decimal rendering of an integer, with a leading minus sign when negative.
pub open spec fn dec_int(n: int) -> Seq<char> {
    if n < 0 {
        seq!['-'] + dec_digits((-n) as nat)
    } else {
        dec_digits(n as nat)
    }
}

fn digit_str(d: u32) -> (r: &'static str)
    requires
        d < 10,
    ensures
        r@ == seq![digit_char(d as int)],
{
    let r: &'static str = if d == 0 {
        "0"
    } else if d == 1 {
        "1"
    } else if d == 2 {
        "2"
    } else if d == 3 {
        "3"
    } else if d == 4 {
        "4"
    } else if d == 5 {
        "5"
    } else if d == 6 {
        "6"
    } else if d == 7 {
        "7"
    } else if d == 8 {
        "8"
    } else {
        "9"
    };
    proof {
        reveal_strlit("0");
        reveal_strlit("1");
        reveal_strlit("2");
        reveal_strlit("3");
        reveal_strlit("4");
        reveal_strlit("5");
        reveal_strlit("6");
        reveal_strlit("7");
        reveal_strlit("8");
        reveal_strlit("9");
        assert(r@ =~= seq![digit_char(d as int)]);
    }
    r
}

fn push_decimal(n: u32, out: &mut String)
    ensures
        final(out)@ == old(out)@ + dec_digits(n as nat),
    decreases n,
{
    if n >= 10 {
        push_decimal(n / 10, out);
    }
    out.append(digit_str(n % 10));
    proof {
        if n < 10 {
            assert(out@ =~= old(out)@ + dec_digits(n as nat));
        } else {
            assert(out@ =~= old(out)@ + dec_digits(n as nat));
        }
    }
}

/// The character for a single hexadecimal digit.
pub open spec fn hex_digit_char(d: int) -> char {
    if d < 10 {
        digit_char(d)
    } else if d == 10 {
        'a'
    } else if d == 11 {
        'b'
    } else if d == 12 {
        'c'
    } else if d == 13 {
        'd'
    } else if d == 14 {
        'e'
    } else {
        'f'
    }
}

/// The two hexadecimal digits of a byte.
pub open spec fn byte_hex(b: u8) -> Seq<char> {
    seq![hex_digit_char(b as int / 16), hex_digit_char(b as int % 16)]
}

/// The bytes of a buffer in hexadecimal, space-separated, as error messages
/// show bytes that failed to decode.
pub open spec fn bytes_hex(s: Seq<u8>) -> Seq<char>
    decreases s.len(),
{
    if s.len() == 0 {
        Seq::empty()
    } else if s.len() == 1 {
        byte_hex(s[0])
    } else {
        byte_hex(s[0]) + seq![' '] + bytes_hex(s.drop_first())
    }
}

fn hex_digit_str(d: u8) -> (r: &'static str)
    requires
        d < 16,
    ensures
        r@ == seq![hex_digit_char(d as int)],
{
    if d < 10 {
        digit_str(d as u32)
    } else {
        let r: &'static str = if d == 10 {
            "a"
        } else if d == 11 {
            "b"
        } else if d == 12 {
            "c"
        } else if d == 13 {
            "d"
        } else if d == 14 {
            "e"
        } else {
            "f"
        };
        proof {
            reveal_strlit("a");
            reveal_strlit("b");
            reveal_strlit("c");
            reveal_strlit("d");
            reveal_strlit("e");
            reveal_strlit("f");
            assert(r@ =~= seq![hex_digit_char(d as int)]);
        }
        r
    }
}

fn push_hex(v: &[u8], i: usize, out: &mut String)
    requires
        i <= v@.len(),
    ensures
        final(out)@ == old(out)@ + bytes_hex(v@.skip(i as int)),
    decreases v@.len() - i,
{
    proof {
        assert(v@.skip(i as int).len() == v@.len() - i);
    }
    if i < v.len() {
        let b = v[i];
        out.append(hex_digit_str(b / 16));
        out.append(hex_digit_str(b % 16));
        proof {
            assert(v@.skip(i as int)[0] == v@[i as int]);
        }
        if i + 1 < v.len() {
            out.append(" ");
            push_hex(v, i + 1, out);
            proof {
                reveal_strlit(" ");
                assert(" "@ =~= seq![' ']);
                assert(v@.skip(i as int).drop_first() =~= v@.skip(i as int + 1));
                assert(out@ =~= old(out)@ + bytes_hex(v@.skip(i as int)));
            }
        } else {
            proof {
                assert(out@ =~= old(out)@ + bytes_hex(v@.skip(i as int)));
            }
        }
    } else {
        proof {
            assert(out@ =~= old(out)@ + bytes_hex(v@.skip(i as int)));
        }
    }
}

/// Renders a byte buffer in space-separated hexadecimal pairs.
pub fn bytes_hex_string(v: &[u8]) -> (r: String)
    ensures
        r@ == bytes_hex(v@),
{
    let mut out = String::new();
    push_hex(v, 0, &mut out);
    proof {
        assert(v@.skip(0) =~= v@);
        assert(out@ =~= bytes_hex(v@));
    }
    out
}

/// Renders an integer in decimal, as error messages show a field identifier.
pub fn decimal_string(n: i32) -> (r: String)
    ensures
        r@ == dec_int(n as int),
{
    let mut out = String::new();
    if n < 0 {
        out.append("-");
        let m: u32 = (-(n as i64)) as u32;
        proof {
            assert(m as nat == (-(n as int)) as nat);
        }
        push_decimal(m, &mut out);
        proof {
            reveal_strlit("-");
            assert("-"@ =~= seq!['-']);
            assert(out@ =~= dec_int(n as int));
        }
    } else {
        push_decimal(n as u32, &mut out);
        proof {
            assert(out@ =~= dec_int(n as int));
        }
    }
    out
}

} // verus!
