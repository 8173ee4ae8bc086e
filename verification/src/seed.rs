//! The reset-seed text format: sixteen bytes as thirty-two hex characters
//! and a trailing newline. Reading and writing the file is the runtime's
//! business; the codec here is what survives a restart.

use vstd::prelude::*;
use crate::dns_types::DnsError;

verus! {

/// Bytes in a reset seed.
pub const RESET_SECRET_SIZE: usize = 16;

/// ASCII whitespace, as trimming sees it.
pub open spec fn is_ws(c: u8) -> bool {
    c == 32 || c == 9 || c == 10 || c == 13 || c == 11 || c == 12
}

/// The value of one hex digit, either case.
pub open spec fn hex_val(c: u8) -> Option<u8> {
    if 48 <= c && c <= 57 {
        Some((c - 48) as u8)
    } else if 97 <= c && c <= 102 {
        Some((c - 87) as u8)
    } else if 65 <= c && c <= 70 {
        Some((c - 55) as u8)
    } else {
        None
    }
}

/// The lower-case hex digit of a value below sixteen.
pub open spec fn hex_digit(v: u8) -> u8 {
    if v < 10 {
        (v + 48) as u8
    } else {
        (v + 87) as u8
    }
}

/// `s` without leading and trailing ASCII whitespace.
pub open spec fn trim_ws(s: Seq<u8>) -> Seq<u8>
    decreases s.len(),
{
    if s.len() > 0 && is_ws(s[0]) {
        trim_ws(s.drop_first())
    } else if s.len() > 0 && is_ws(s.last()) {
        trim_ws(s.drop_last())
    } else {
        s
    }
}

/// Whether every character of `s` is a hex digit.
pub open spec fn all_hex(s: Seq<u8>) -> bool {
    forall|i: int| 0 <= i < s.len() ==> (#[trigger] hex_val(s[i])) is Some
}

/// The bytes thirty-two hex digits spell.
pub open spec fn hex_pairs(s: Seq<u8>) -> Seq<u8> {
    Seq::new((s.len() / 2) as nat, |i: int| (hex_val(s[2 * i])->Some_0 * 16 + hex_val(
        s[2 * i + 1],
    )->Some_0) as u8)
}

/// The text form of a seed: two lower-case digits per byte, one newline.
pub open spec fn seed_text(seed: Seq<u8>) -> Seq<u8> {
    Seq::new((2 * seed.len()) as nat, |i: int| if i % 2 == 0 {
        hex_digit(seed[i / 2] / 16)
    } else {
        hex_digit(seed[i / 2] % 16)
    }) + seq![10u8]
}

/// Finds the trimmed window of `s`: start and end of the non-whitespace
/// middle.
pub fn trim_ws_range(s: &[u8]) -> (r: (usize, usize))
    ensures
        r.0 <= r.1 <= s@.len(),
        s@.subrange(r.0 as int, r.1 as int) == trim_ws(s@),
{
    let mut start: usize = 0;
    let mut end: usize = s.len();
    proof {
        assert(s@.subrange(0, s@.len() as int) =~= s@);
    }
    loop
        invariant
            start <= end <= s@.len(),
            trim_ws(s@) == trim_ws(s@.subrange(start as int, end as int)),
        decreases end - start,
    {
        let ghost cur = s@.subrange(start as int, end as int);
        if start < end && is_ws_byte(s[start]) {
            proof {
                assert(cur[0] == s@[start as int]);
                assert(cur.drop_first() =~= s@.subrange(start + 1, end as int));
            }
            start = start + 1;
        } else if start < end && is_ws_byte(s[end - 1]) {
            proof {
                assert(!(cur.len() > 0 && is_ws(cur[0])));
                assert(cur.last() == s@[end - 1]);
                assert(cur.drop_last() =~= s@.subrange(start as int, end - 1));
            }
            end = end - 1;
        } else {
            proof {
                assert(trim_ws(cur) == cur);
            }
            return (start, end);
        }
    }
}

/// Whether one byte is ASCII whitespace.
fn is_ws_byte(c: u8) -> (r: bool)
    ensures
        r == is_ws(c),
{
    c == 32 || c == 9 || c == 10 || c == 13 || c == 11 || c == 12
}

/// One hex digit to its value, either case.
fn hex_val_byte(c: u8) -> (r: Option<u8>)
    ensures
        r == hex_val(c),
        r matches Some(v) ==> v < 16,
{
    if 48 <= c && c <= 57 {
        Some(c - 48)
    } else if 97 <= c && c <= 102 {
        Some(c - 87)
    } else if 65 <= c && c <= 70 {
        Some(c - 55)
    } else {
        None
    }
}

/// Reads a seed out of its text form: exactly thirty-two hex characters
/// once whitespace is trimmed, or nothing.
pub fn parse_hex_seed(input: &[u8]) -> (r: Result<Vec<u8>, DnsError>)
    ensures
        r is Ok <==> (trim_ws(input@).len() == 2 * RESET_SECRET_SIZE && all_hex(trim_ws(input@))),
        r matches Ok(v) ==> v@ == hex_pairs(trim_ws(input@)) && v@.len() == RESET_SECRET_SIZE,
{
    let (start, end) = trim_ws_range(input);
    let ghost t = trim_ws(input@);
    if end - start != 2 * RESET_SECRET_SIZE {
        return Err(DnsError::new("reset seed must be 32 hex chars"));
    }
    let mut out: Vec<u8> = Vec::new();
    let mut i: usize = 0;
    while i < RESET_SECRET_SIZE
        invariant
            i <= RESET_SECRET_SIZE,
            end - start == 2 * RESET_SECRET_SIZE,
            start + 2 * RESET_SECRET_SIZE <= input@.len(),
            t == input@.subrange(start as int, end as int),
            t == trim_ws(input@),
            t.len() == 2 * RESET_SECRET_SIZE,
            out@.len() == i,
            forall|j: int| 0 <= j < 2 * i ==> (#[trigger] hex_val(t[j])) is Some,
            forall|j: int| 0 <= j < i ==> #[trigger] out@[j] == (hex_val(t[2 * j])->Some_0 * 16
                + hex_val(t[2 * j + 1])->Some_0) as u8,
        decreases RESET_SECRET_SIZE - i,
    {
        let hi = match hex_val_byte(input[start + 2 * i]) {
            Some(v) => v,
            None => {
                proof {
                    assert(t[2 * i] == input@[start + 2 * i]);
                    assert(hex_val(t[2 * i]) is None);
                    assert(!all_hex(t));
                }
                return Err(DnsError::new("reset seed contains invalid hex"));
            },
        };
        let lo = match hex_val_byte(input[start + 2 * i + 1]) {
            Some(v) => v,
            None => {
                proof {
                    assert(t[2 * i + 1] == input@[start + 2 * i + 1]);
                    assert(hex_val(t[2 * i + 1]) is None);
                    assert(!all_hex(t));
                }
                return Err(DnsError::new("reset seed contains invalid hex"));
            },
        };
        out.push(hi * 16 + lo);
        proof {
            assert(t[2 * i] == input@[start + 2 * i]);
            assert(t[2 * i + 1] == input@[start + 2 * i + 1]);
        }
        i = i + 1;
    }
    proof {
        assert(all_hex(t));
        assert(out@ =~= hex_pairs(t));
    }
    Ok(out)
}

/// Writes a seed in its text form: lower-case digits, one newline.
pub fn format_hex_seed(seed: &[u8]) -> (r: Vec<u8>)
    requires
        seed@.len() == RESET_SECRET_SIZE,
    ensures
        r@ == seed_text(seed@),
{
    let mut out: Vec<u8> = Vec::new();
    let mut i: usize = 0;
    while i < seed.len()
        invariant
            i <= seed@.len(),
            seed@.len() == RESET_SECRET_SIZE,
            out@.len() == 2 * i,
            forall|j: int| 0 <= j < 2 * i ==> #[trigger] out@[j] == (if j % 2 == 0 {
                hex_digit(seed@[j / 2] / 16)
            } else {
                hex_digit(seed@[j / 2] % 16)
            }),
        decreases seed@.len() - i,
    {
        let b = seed[i];
        let hi = b / 16;
        let lo = b % 16;
        let hc: u8 = if hi < 10 {
            hi + 48
        } else {
            hi + 87
        };
        let lc: u8 = if lo < 10 {
            lo + 48
        } else {
            lo + 87
        };
        out.push(hc);
        out.push(lc);
        i = i + 1;
    }
    out.push(10);
    proof {
        assert(out@ =~= seed_text(seed@));
    }
    out
}

/// Round trip of the seed codec: reading the written text gives the same
/// sixteen bytes back.
pub proof fn lemma_seed_round_trip(seed: Seq<u8>)
    requires
        seed.len() == RESET_SECRET_SIZE,
    ensures
        trim_ws(seed_text(seed)).len() == 2 * RESET_SECRET_SIZE,
        all_hex(trim_ws(seed_text(seed))),
        hex_pairs(trim_ws(seed_text(seed))) == seed,
{
    let text = seed_text(seed);
    let digits = Seq::new((2 * seed.len()) as nat, |i: int| if i % 2 == 0 {
        hex_digit(seed[i / 2] / 16)
    } else {
        hex_digit(seed[i / 2] % 16)
    });
    assert(forall|v: u8| v < 16 ==> !is_ws(#[trigger] hex_digit(v)));
    assert(forall|v: u8| v < 16 ==> hex_val(#[trigger] hex_digit(v)) == Some(v));
    assert forall|i: int| 0 <= i < digits.len() implies !is_ws(#[trigger] digits[i]) by {
        assert(seed[i / 2] / 16 < 16 && seed[i / 2] % 16 < 16);
    }
    assert(trim_ws(text) =~= digits) by {
        assert(text.last() == 10u8);
        assert(is_ws(text.last()));
        assert(!is_ws(text[0]));
        assert(text.drop_last() =~= digits);
        assert(trim_ws(text) == trim_ws(digits));
        assert(!is_ws(digits[0]));
        assert(!is_ws(digits.last()));
        assert(trim_ws(digits) == digits);
    }
    assert(all_hex(digits));
    assert(hex_pairs(digits) =~= seed) by {
        assert forall|i: int| 0 <= i < seed.len() implies hex_pairs(digits)[i] == seed[i] by {
            assert(digits[2 * i] == hex_digit(seed[i] / 16));
            assert(digits[2 * i + 1] == hex_digit(seed[i] % 16));
            assert(hex_val(digits[2 * i]) == Some(seed[i] / 16));
            assert(hex_val(digits[2 * i + 1]) == Some(seed[i] % 16));
            assert((seed[i] / 16) * 16 + seed[i] % 16 == seed[i]) by {
                vstd::arithmetic::div_mod::lemma_fundamental_div_mod(seed[i] as int, 16);
            }
        }
    }
}

} // verus!
