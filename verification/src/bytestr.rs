//! ASCII byte-string helpers.
//!
//! DNS names and configuration values are handled as byte strings; these
//! helpers give the case folding, trimming and suffix tests the codec and
//! the parsers need, each pinned to a spec-level counterpart.

use vstd::prelude::*;

verus! {

/// ASCII code of `.`.
pub const DOT: u8 = 46;

/// ASCII code of `A`.
pub const UPPER_A: u8 = 65;

/// ASCII code of `Z`.
pub const UPPER_Z: u8 = 90;

/// ASCII lower-casing of one byte; other bytes are unchanged.
pub open spec fn lower_byte(b: u8) -> u8 {
    if UPPER_A <= b && b <= UPPER_Z {
        (b + 32) as u8
    } else {
        b
    }
}

/// ASCII lower-casing of a byte string.
pub open spec fn lower_seq(s: Seq<u8>) -> Seq<u8> {
    s.map_values(|b: u8| lower_byte(b))
}

/// The longest suffix of trailing `.` bytes removed.
pub open spec fn trim_dots(s: Seq<u8>) -> Seq<u8>
    decreases s.len(),
{
    if s.len() > 0 && s.last() == DOT {
        trim_dots(s.drop_last())
    } else {
        s
    }
}

pub proof fn lemma_trim_dots_no_trailing(s: Seq<u8>)
    ensures
        trim_dots(s).len() > 0 ==> trim_dots(s).last() != DOT,
        trim_dots(s).len() <= s.len(),
        trim_dots(s) == s.take(trim_dots(s).len() as int),
    decreases s.len(),
{
    if s.len() > 0 && s.last() == DOT {
        lemma_trim_dots_no_trailing(s.drop_last());
        assert(s.drop_last() == s.take(s.len() - 1));
        assert(trim_dots(s) == trim_dots(s.drop_last()));
        assert(s.drop_last().take(trim_dots(s).len() as int) == s.take(
            trim_dots(s).len() as int,
        ));
    }
}

/// Lower-cases ASCII letters in place of a copy.
pub fn to_lower_bytes(s: &[u8]) -> (r: Vec<u8>)
    ensures
        r@ == lower_seq(s@),
{
    let mut out: Vec<u8> = Vec::new();
    let mut i: usize = 0;
    while i < s.len()
        invariant
            i <= s.len(),
            out@ == lower_seq(s@.take(i as int)),
        decreases s.len() - i,
    {
        let b = s[i];
        let lb: u8 = if UPPER_A <= b && b <= UPPER_Z {
            b + 32
        } else {
            b
        };
        out.push(lb);
        proof {
            assert(s@.take(i + 1).drop_last() == s@.take(i as int));
            assert(lower_seq(s@.take(i + 1)) == lower_seq(s@.take(i as int)).push(lower_byte(
                s@[i as int],
            )));
        }
        i = i + 1;
    }
    proof {
        assert(s@.take(s@.len() as int) == s@);
    }
    out
}

/// Length of `s` once trailing dots are removed.
pub fn trim_dots_len(s: &[u8]) -> (r: usize)
    ensures
        r == trim_dots(s@).len(),
        r <= s@.len(),
        trim_dots(s@) == s@.take(r as int),
{
    let mut end: usize = s.len();
    proof {
        assert(s@.take(s@.len() as int) == s@);
    }
    while end > 0 && s[end - 1] == DOT
        invariant
            end <= s.len(),
            trim_dots(s@) == trim_dots(s@.take(end as int)),
        decreases end,
    {
        proof {
            assert(s@.take(end as int).last() == s@[end - 1]);
            assert(s@.take(end as int).drop_last() == s@.take(end - 1));
        }
        end = end - 1;
    }
    proof {
        lemma_trim_dots_no_trailing(s@);
        if end > 0 {
            assert(s@.take(end as int).last() != DOT);
        }
        assert(trim_dots(s@.take(end as int)) == s@.take(end as int));
    }
    end
}

/// Copies a slice into a fresh vector.
pub fn to_vec_bytes(s: &[u8]) -> (r: Vec<u8>)
    ensures
        r@ == s@,
{
    let mut out: Vec<u8> = Vec::new();
    let mut i: usize = 0;
    while i < s.len()
        invariant
            i <= s@.len(),
            out@ == s@.take(i as int),
        decreases s@.len() - i,
    {
        out.push(s[i]);
        proof {
            assert(out@ =~= s@.take(i + 1));
        }
        i = i + 1;
    }
    proof {
        assert(s@.take(s@.len() as int) =~= s@);
    }
    out
}

/// Whether `s` ends with `suffix`, byte for byte.
pub open spec fn ends_with(s: Seq<u8>, suffix: Seq<u8>) -> bool {
    s.len() >= suffix.len() && s.skip(s.len() - suffix.len()) == suffix
}

/// Byte-wise equality of two slices.
pub fn bytes_eq(a: &[u8], b: &[u8]) -> (r: bool)
    ensures
        r == (a@ == b@),
{
    if a.len() != b.len() {
        proof {
            assert(a@.len() != b@.len());
        }
        return false;
    }
    let mut i: usize = 0;
    while i < a.len()
        invariant
            i <= a.len(),
            a@.len() == b@.len(),
            forall|j: int| 0 <= j < i ==> a@[j] == b@[j],
        decreases a.len() - i,
    {
        if a[i] != b[i] {
            proof {
                assert(a@[i as int] != b@[i as int]);
            }
            return false;
        }
        i = i + 1;
    }
    proof {
        assert(a@ =~= b@);
    }
    true
}

/// Whether `s[..s_end]` ends with `suffix[..suf_end]`.
pub fn range_ends_with(s: &[u8], s_end: usize, suffix: &[u8], suf_end: usize) -> (r: bool)
    requires
        s_end <= s@.len(),
        suf_end <= suffix@.len(),
    ensures
        r == ends_with(s@.take(s_end as int), suffix@.take(suf_end as int)),
{
    if suf_end > s_end {
        return false;
    }
    let start: usize = s_end - suf_end;
    let mut i: usize = 0;
    while i < suf_end
        invariant
            i <= suf_end,
            suf_end <= s_end <= s@.len(),
            suf_end <= suffix@.len(),
            start == s_end - suf_end,
            forall|j: int| 0 <= j < i ==> s@[start + j] == suffix@[j],
        decreases suf_end - i,
    {
        if s[start + i] != suffix[i] {
            proof {
                let sv = s@.take(s_end as int);
                let fv = suffix@.take(suf_end as int);
                assert(sv.skip(sv.len() - fv.len())[i as int] == s@[start + i]);
            }
            return false;
        }
        i = i + 1;
    }
    proof {
        let sv = s@.take(s_end as int);
        let fv = suffix@.take(suf_end as int);
        assert(sv.skip(sv.len() - fv.len()) =~= fv);
    }
    true
}

/// Lower-casing distributes over concatenation.
pub proof fn lemma_lower_concat(a: Seq<u8>, b: Seq<u8>)
    ensures
        lower_seq(a + b) == lower_seq(a) + lower_seq(b),
{
    assert(lower_seq(a + b) =~= lower_seq(a) + lower_seq(b));
}

/// A trailing dot goes when trimming.
pub proof fn lemma_trim_push_dot(x: Seq<u8>)
    ensures
        trim_dots(x + seq![DOT]) == trim_dots(x),
{
    assert((x + seq![DOT]).last() == DOT);
    assert((x + seq![DOT]).drop_last() =~= x);
}

/// Trimming only reaches into the right part while it has substance.
pub proof fn lemma_trim_concat(a: Seq<u8>, b: Seq<u8>)
    requires
        trim_dots(b).len() > 0,
    ensures
        trim_dots(a + b) == a + trim_dots(b),
    decreases b.len(),
{
    if b.len() > 0 && b.last() == DOT {
        assert((a + b).last() == DOT);
        assert((a + b).drop_last() =~= a + b.drop_last());
        lemma_trim_concat(a, b.drop_last());
    } else {
        assert(b.len() > 0);
        assert((a + b).last() == b.last());
        assert(trim_dots(a + b) == a + b);
        assert(trim_dots(b) == b);
    }
}

/// What does not end in a dot is already trimmed.
pub proof fn lemma_trim_fixed(s: Seq<u8>)
    requires
        s.len() == 0 || s.last() != DOT,
    ensures
        trim_dots(s) == s,
{
}

/// Index of the first occurrence of `b`, or a negative value when absent.
pub open spec fn find_byte(s: Seq<u8>, b: u8) -> int
    decreases s.len(),
{
    if s.len() == 0 {
        -1
    } else if s[0] == b {
        0
    } else {
        let r = find_byte(s.drop_first(), b);
        if r < 0 {
            -1
        } else {
            r + 1
        }
    }
}

/// `find_byte` finds exactly the first occurrence.
pub proof fn lemma_find_byte_char(s: Seq<u8>, b: u8)
    ensures
        find_byte(s, b) < 0 ==> forall|i: int| 0 <= i < s.len() ==> s[i] != b,
        find_byte(s, b) >= 0 ==> 0 <= find_byte(s, b) < s.len() && s[find_byte(s, b)] == b
            && forall|i: int| 0 <= i < find_byte(s, b) ==> s[i] != b,
    decreases s.len(),
{
    if s.len() > 0 && s[0] != b {
        let d = s.drop_first();
        lemma_find_byte_char(d, b);
        if find_byte(d, b) < 0 {
            assert forall|i: int| 0 <= i < s.len() implies s[i] != b by {
                if i > 0 {
                    assert(d[i - 1] != b);
                }
            }
        } else {
            assert(s[find_byte(s, b)] == d[find_byte(d, b)]);
            assert forall|i: int| 0 <= i < find_byte(s, b) implies s[i] != b by {
                if i > 0 {
                    assert(d[i - 1] != b);
                }
            }
        }
    }
}

/// Scans for the first occurrence of `b`, matching `find_byte`.
pub fn find_byte_at(s: &[u8], b: u8) -> (r: Option<usize>)
    ensures
        r matches Some(i) ==> find_byte(s@, b) == i,
        r is None ==> find_byte(s@, b) < 0,
{
    let mut i: usize = 0;
    while i < s.len()
        invariant
            i <= s@.len(),
            forall|j: int| 0 <= j < i ==> s@[j] != b,
        decreases s@.len() - i,
    {
        if s[i] == b {
            proof {
                lemma_find_byte_char(s@, b);
                if find_byte(s@, b) < 0 {
                    assert(s@[i as int] != b);
                } else if find_byte(s@, b) < i {
                    assert(s@[find_byte(s@, b)] != b);
                } else if find_byte(s@, b) > i {
                    assert(s@[i as int] != b);
                }
            }
            return Some(i);
        }
        i = i + 1;
    }
    proof {
        lemma_find_byte_char(s@, b);
        if find_byte(s@, b) >= 0 {
            assert(s@[find_byte(s@, b)] == b);
        }
    }
    None
}

/// Appends a slice onto a byte buffer.
pub fn append_bytes(out: &mut Vec<u8>, s: &[u8])
    ensures
        final(out)@ == old(out)@ + s@,
{
    let mut i: usize = 0;
    proof {
        assert(out@ =~= old(out)@ + s@.take(0));
    }
    while i < s.len()
        invariant
            i <= s@.len(),
            out@ == old(out)@ + s@.take(i as int),
        decreases s@.len() - i,
    {
        out.push(s[i]);
        proof {
            assert(out@ =~= old(out)@ + s@.take(i + 1));
        }
        i = i + 1;
    }
    proof {
        assert(s@.take(s@.len() as int) =~= s@);
    }
}

/// The decimal text of a 64-bit number.
pub open spec fn u64_decimal(v: u64) -> Seq<u8>
    decreases v,
{
    if v < 10 {
        seq![(48 + v) as u8]
    } else {
        u64_decimal((v / 10) as u64) + seq![(48 + v % 10) as u8]
    }
}

/// Writes a 64-bit number in decimal.
pub fn u64_to_decimal(v: u64) -> (r: Vec<u8>)
    ensures
        r@ == u64_decimal(v),
    decreases v,
{
    if v < 10 {
        let mut out: Vec<u8> = Vec::new();
        out.push(48 + v as u8);
        proof {
            assert(out@ =~= u64_decimal(v));
        }
        out
    } else {
        let mut out = u64_to_decimal(v / 10);
        out.push(48 + (v % 10) as u8);
        proof {
            assert(out@ =~= u64_decimal(v));
        }
        out
    }
}

/// The decimal text of a signed 32-bit number: a minus sign where needed.
pub open spec fn i32_decimal(v: i32) -> Seq<u8> {
    if v >= 0 {
        u64_decimal(v as u64)
    } else {
        seq![45u8] + u64_decimal((-(v as int)) as u64)
    }
}

/// Writes a signed 32-bit number in decimal.
pub fn i32_to_decimal(v: i32) -> (r: Vec<u8>)
    ensures
        r@ == i32_decimal(v),
{
    if v >= 0 {
        return u64_to_decimal(v as u64);
    }
    let magnitude: u64 = if v == i32::MIN {
        0x8000_0000u64
    } else {
        (-v) as u64
    };
    proof {
        assert(magnitude == -(v as int));
    }
    let mut out: Vec<u8> = Vec::new();
    out.push(45);
    let digits = u64_to_decimal(magnitude);
    append_bytes(&mut out, digits.as_slice());
    proof {
        assert(out@ =~= i32_decimal(v));
    }
    out
}

} // verus!
