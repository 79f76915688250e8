//! Percent-decoding of URL paths.
//!
//! A `%` introduces an escape: `%%` stands for a literal `%`, and two hex
//! digits stand for the byte they spell.  A `%` that is not followed by
//! either form is kept literally and decoding continues after it; a `+`
//! decodes to a space; every other byte decodes to the character with its
//! code point.

use vstd::prelude::*;
use vstd::string::*;

verus! {

/// Whether the byte spells a hex digit (as `to_digit(16)` accepts it).
pub open spec fn is_hex_digit(b: u8) -> bool {
    (48 <= b <= 57) || (97 <= b <= 102) || (65 <= b <= 70)
}

/// The value of a hex digit byte.
pub open spec fn hex_value(b: u8) -> u8
    recommends
        is_hex_digit(b),
{
    if 48 <= b <= 57 {
        (b - 48) as u8
    } else if 97 <= b <= 102 {
        (b - 87) as u8
    } else {
        (b - 55) as u8
    }
}

/// What follows a `%` at position `pos - 1`: a literal `%`, or a byte spelt
/// by two hex digits; `None` when neither follows, in which case nothing is
/// consumed.
pub open spec fn spec_convert_percent(bytes: Seq<u8>, pos: int) -> Option<(u8, int)> {
    if 0 <= pos < bytes.len() && bytes[pos] == 37 {
        Some((37u8, pos + 1))
    } else if 0 <= pos && pos + 1 < bytes.len() && is_hex_digit(bytes[pos]) && is_hex_digit(
        bytes[pos + 1],
    ) {
        Some((((hex_value(bytes[pos]) * 16 + hex_value(bytes[pos + 1])) as u8), pos + 2))
    } else {
        None
    }
}

/// The decoding of a byte string, front to back.
pub open spec fn url_decoded(bytes: Seq<u8>) -> Seq<char>
    decreases bytes.len(),
{
    if bytes.len() == 0 {
        Seq::empty()
    } else if bytes[0] == 37 {
        match spec_convert_percent(bytes, 1) {
            Some(pair) => seq![pair.0 as char] + url_decoded(bytes.skip(pair.1)),
            None => seq!['%'] + url_decoded(bytes.skip(1)),
        }
    } else if bytes[0] == 43 {
        seq![' '] + url_decoded(bytes.skip(1))
    } else {
        seq![bytes[0] as char] + url_decoded(bytes.skip(1))
    }
}

/// The value of the hex digit byte, if it is one.
fn hex_digit_value(b: u8) -> (r: Option<u8>)
    ensures
        r matches Some(v) ==> is_hex_digit(b) && v == hex_value(b),
        r is None ==> !is_hex_digit(b),
{
    if 48 <= b && b <= 57 {
        Some(b - 48)
    } else if 97 <= b && b <= 102 {
        Some(b - 87)
    } else if 65 <= b && b <= 70 {
        Some(b - 55)
    } else {
        None
    }
}

/// Reads one escape after a `%`: the decoded byte and the position to
/// resume at, or `None` when what follows is not an escape.
pub fn convert_percent(bytes: &Vec<u8>, pos: usize) -> (r: Option<(u8, usize)>)
    requires
        pos <= bytes@.len(),
    ensures
        r matches Some(p) ==> spec_convert_percent(bytes@, pos as int) == Some((p.0, p.1 as int))
            && pos < p.1 <= bytes@.len(),
        r is None ==> spec_convert_percent(bytes@, pos as int) is None,
{
    if pos < bytes.len() {
        if bytes[pos] == 37 {
            return Some((37, pos + 1));
        }
        if bytes.len() - pos >= 2 {
            match (hex_digit_value(bytes[pos]), hex_digit_value(bytes[pos + 1])) {
                (Some(h), Some(l)) => {
                    return Some((h * 16 + l, pos + 2));
                },
                _ => {
                    return None;
                },
            }
        }
        None
    } else {
        None
    }
}

/// Decodes a percent-encoded URL path.
pub fn url_decode(url: &str) -> (r: String)
    ensures
        r@ == url_decoded(url.spec_bytes()),
{
    let bytes = url.as_bytes_vec();
    let mut out = String::new();
    let mut i: usize = 0;
    proof {
        assert(bytes@.skip(0) =~= bytes@);
        assert(Seq::<char>::empty() + url_decoded(bytes@) =~= url_decoded(bytes@));
    }
    while i < bytes.len()
        invariant
            i <= bytes@.len(),
            url_decoded(bytes@) == out@ + url_decoded(bytes@.skip(i as int)),
        decreases bytes@.len() - i,
    {
        let ghost rest = bytes@.skip(i as int);
        proof {
            assert(rest[0] == bytes@[i as int]);
        }
        let b = bytes[i];
        if b == 37 {
            match convert_percent(&bytes, i + 1) {
                Some((v, next)) => {
                    proof {
                        // The escape looks the same from the suffix.
                        assert(rest.len() >= 2 ==> rest[1] == bytes@[i + 1]);
                        assert(rest.len() >= 3 ==> rest[2] == bytes@[i + 2]);
                        assert(spec_convert_percent(rest, 1) == Some(
                            (v, next - i as int),
                        ));
                        assert(rest.skip(next - i as int) =~= bytes@.skip(next as int));
                        assert(out@.push(v as char) =~= out@ + seq![v as char]);
                    }
                    out.push(v as char);
                    i = next;
                },
                None => {
                    proof {
                        assert(rest.len() >= 2 ==> rest[1] == bytes@[i + 1]);
                        assert(rest.len() >= 3 ==> rest[2] == bytes@[i + 2]);
                        assert(spec_convert_percent(rest, 1) is None);
                        assert(rest.skip(1) =~= bytes@.skip(i + 1));
                        assert(out@.push('%') =~= out@ + seq!['%']);
                    }
                    out.push('%');
                    i = i + 1;
                },
            }
        } else if b == 43 {
            proof {
                assert(rest.skip(1) =~= bytes@.skip(i + 1));
                assert(out@.push(' ') =~= out@ + seq![' ']);
            }
            out.push(' ');
            i = i + 1;
        } else {
            proof {
                assert(rest.skip(1) =~= bytes@.skip(i + 1));
                assert(out@.push(b as char) =~= out@ + seq![b as char]);
            }
            out.push(b as char);
            i = i + 1;
        }
    }
    proof {
        assert(bytes@.skip(bytes@.len() as int) =~= Seq::<u8>::empty());
        assert(out@ =~= url_decoded(bytes@));
    }
    out
}

} // verus!
