//! Hex color parsing for the rendering adapters: `"#RRGGBB"` or
//! `"RRGGBB"` to three channel bytes.

use vstd::prelude::*;
use vstd::string::StringSliceAdditionalSpecFns;
use vstd::slice::slice_index_get;

verus! {

/// Why a hex color string was rejected.
#[derive(Debug, PartialEq, Eq)]
pub enum ParseHexError {
    /// The input, returned unchanged, did not hold exactly six digits
    /// after an optional leading `#`.
    Length(String),
    /// The first byte of the six that is not a hexadecimal digit.
    Digit(u8),
}

/// ASCII `0`-`9`, `A`-`F` or `a`-`f`.
pub open spec fn is_hex_digit(b: u8) -> bool {
    (48 <= b <= 57) || (65 <= b <= 70) || (97 <= b <= 102)
}

/// The value of one hexadecimal digit; zero on a byte that is none.
pub open spec fn hex_digit_spec(b: u8) -> u8 {
    if 48 <= b <= 57 {
        (b - 48) as u8
    } else if 65 <= b <= 70 {
        (b - 55) as u8
    } else if 97 <= b <= 102 {
        (b - 87) as u8
    } else {
        0u8
    }
}

/// The channel value of two hexadecimal digits.
pub open spec fn hex_pair_spec(hi: u8, lo: u8) -> u8 {
    (16 * hex_digit_spec(hi) as int + hex_digit_spec(lo) as int) as u8
}

/// The input bytes with one leading `#` removed, if there is one.
pub open spec fn strip_hash(b: Seq<u8>) -> Seq<u8> {
    if b.len() > 0 && b[0] == 35 {
        b.drop_first()
    } else {
        b
    }
}

fn hex_digit(b: u8) -> (r: Option<u8>)
    ensures
        r matches Some(v) ==> is_hex_digit(b) && v == hex_digit_spec(b),
        r is None ==> !is_hex_digit(b),
{
    if b >= 48 && b <= 57 {
        Some(b - 48)
    } else if b >= 65 && b <= 70 {
        Some(b - 55)
    } else if b >= 97 && b <= 102 {
        Some(b - 87)
    } else {
        None
    }
}

/// Parses `"#RRGGBB"` or `"RRGGBB"` into the red, green and blue channel
/// bytes. Any other length is rejected with the input; six digits with a
/// byte among them that is no hexadecimal digit are rejected with the
/// first such byte.
pub fn parse_hex_to_rgb(src: &str) -> (r: Result<(u8, u8, u8), ParseHexError>)
    ensures
        ({
            let b = strip_hash(src.spec_bytes());
            match r {
                Ok(rgb) => b.len() == 6 && (forall|i: int|
                    0 <= i < 6 ==> is_hex_digit(#[trigger] b[i])) && rgb.0 == hex_pair_spec(
                    b[0],
                    b[1],
                ) && rgb.1 == hex_pair_spec(b[2], b[3]) && rgb.2 == hex_pair_spec(b[4], b[5]),
                Err(ParseHexError::Length(s)) => b.len() != 6 && s@ == src@,
                Err(ParseHexError::Digit(d)) => b.len() == 6 && exists|i: int|
                    0 <= i < 6 && !is_hex_digit(#[trigger] b[i]) && d == b[i] && (forall|j: int|
                        0 <= j < i ==> is_hex_digit(b[j])),
            }
        }),
{
    let bytes = src.as_bytes();
    let ghost stripped = strip_hash(src.spec_bytes());
    let off: usize = if bytes.len() > 0 && *slice_index_get(bytes, 0) == 35 {
        1
    } else {
        0
    };
    proof {
        assert(stripped.len() == bytes@.len() - off);
        assert(forall|j: int| 0 <= j < stripped.len() ==> stripped[j] == bytes@[off + j]);
    }
    if bytes.len() - off != 6 {
        return Err(ParseHexError::Length(src.to_owned()));
    }
    let mut vals: Vec<u8> = Vec::new();
    let mut i: usize = 0;
    while i < 6
        invariant
            bytes@ == src.spec_bytes(),
            stripped == strip_hash(src.spec_bytes()),
            off <= 1,
            bytes@.len() == off + 6,
            stripped.len() == 6,
            forall|j: int| 0 <= j < stripped.len() ==> stripped[j] == bytes@[off + j],
            i <= 6,
            vals@.len() == i,
            forall|j: int|
                0 <= j < i ==> is_hex_digit(#[trigger] stripped[j]) && vals@[j] == hex_digit_spec(
                    stripped[j],
                ),
        decreases 6 - i,
    {
        let byte = *slice_index_get(bytes, off + i);
        match hex_digit(byte) {
            Some(v) => {
                vals.push(v);
            },
            None => {
                proof {
                    assert(!is_hex_digit(stripped[i as int]) && byte == stripped[i as int]);
                }
                return Err(ParseHexError::Digit(byte));
            },
        }
        i = i + 1;
    }
    proof {
        assert forall|j: int| 0 <= j < 6 implies #[trigger] vals@[j] <= 15 by {
            assert(vals@[j] == hex_digit_spec(stripped[j]));
        }
    }
    let red = 16 * vals[0] + vals[1];
    let green = 16 * vals[2] + vals[3];
    let blue = 16 * vals[4] + vals[5];
    Ok((red, green, blue))
}

} // verus!
