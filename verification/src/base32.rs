//! Base32 codec for query payloads: unpadded, lower-case letters and the
//! digits two to seven, with a case-insensitive decoder.

use vstd::prelude::*;

verus! {

/// The letter or digit standing for one five-bit value.
pub open spec fn b32_char_of(v: u8) -> u8 {
    if v < 26 {
        (v + 97) as u8
    } else {
        (v + 24) as u8
    }
}

/// The five-bit value a character denotes, either case accepted.
pub open spec fn b32_val_of(c: u8) -> Option<u8> {
    if 97 <= c && c <= 122 {
        Some((c - 97) as u8)
    } else if 65 <= c && c <= 90 {
        Some((c - 65) as u8)
    } else if 50 <= c && c <= 55 {
        Some((c - 24) as u8)
    } else {
        None
    }
}

/// The five-bit values of one group of up to five bytes.
pub open spec fn enc_vals(g: Seq<u8>) -> Seq<u8> {
    let a = if g.len() > 0 {
        g[0]
    } else {
        0
    };
    let b = if g.len() > 1 {
        g[1]
    } else {
        0
    };
    let c = if g.len() > 2 {
        g[2]
    } else {
        0
    };
    let d = if g.len() > 3 {
        g[3]
    } else {
        0
    };
    let e = if g.len() > 4 {
        g[4]
    } else {
        0
    };
    let v0 = a >> 3;
    let v1 = ((a & 0x07) << 2) | (b >> 6);
    let v2 = (b >> 1) & 0x1f;
    let v3 = ((b & 0x01) << 4) | (c >> 4);
    let v4 = ((c & 0x0f) << 1) | (d >> 7);
    let v5 = (d >> 2) & 0x1f;
    let v6 = ((d & 0x03) << 3) | (e >> 5);
    let v7 = e & 0x1f;
    if g.len() == 1 {
        seq![v0, v1]
    } else if g.len() == 2 {
        seq![v0, v1, v2, v3]
    } else if g.len() == 3 {
        seq![v0, v1, v2, v3, v4]
    } else if g.len() == 4 {
        seq![v0, v1, v2, v3, v4, v5, v6]
    } else {
        seq![v0, v1, v2, v3, v4, v5, v6, v7]
    }
}

/// The characters of one encoded group.
pub open spec fn enc_group(g: Seq<u8>) -> Seq<u8> {
    enc_vals(g).map_values(|v: u8| b32_char_of(v))
}

/// The whole encoding: five input bytes per group of eight characters.
pub open spec fn b32_encode(s: Seq<u8>) -> Seq<u8>
    decreases s.len(),
{
    if s.len() == 0 {
        Seq::empty()
    } else if s.len() >= 5 {
        enc_group(s.take(5)) + b32_encode(s.skip(5))
    } else {
        enc_group(s)
    }
}

/// The bytes one group of five-bit values decodes to.
pub open spec fn dec_bytes(vals: Seq<u8>) -> Seq<u8> {
    let v0 = if vals.len() > 0 {
        vals[0]
    } else {
        0
    };
    let v1 = if vals.len() > 1 {
        vals[1]
    } else {
        0
    };
    let v2 = if vals.len() > 2 {
        vals[2]
    } else {
        0
    };
    let v3 = if vals.len() > 3 {
        vals[3]
    } else {
        0
    };
    let v4 = if vals.len() > 4 {
        vals[4]
    } else {
        0
    };
    let v5 = if vals.len() > 5 {
        vals[5]
    } else {
        0
    };
    let v6 = if vals.len() > 6 {
        vals[6]
    } else {
        0
    };
    let v7 = if vals.len() > 7 {
        vals[7]
    } else {
        0
    };
    let a = (v0 << 3) | (v1 >> 2);
    let b = ((v1 & 0x03) << 6) | (v2 << 1) | (v3 >> 4);
    let c = ((v3 & 0x0f) << 4) | (v4 >> 1);
    let d = ((v4 & 0x01) << 7) | (v5 << 2) | (v6 >> 3);
    let e = ((v6 & 0x07) << 5) | v7;
    if vals.len() == 2 {
        seq![a]
    } else if vals.len() == 4 {
        seq![a, b]
    } else if vals.len() == 5 {
        seq![a, b, c]
    } else if vals.len() == 7 {
        seq![a, b, c, d]
    } else {
        seq![a, b, c, d, e]
    }
}

/// Whether every character of `s` denotes a five-bit value.
pub open spec fn all_b32_chars(s: Seq<u8>) -> bool {
    forall|i: int| 0 <= i < s.len() ==> (#[trigger] b32_val_of(s[i])) is Some
}

/// The values the characters of `s` denote.
pub open spec fn vals_of(s: Seq<u8>) -> Seq<u8> {
    s.map_values(|c: u8| b32_val_of(c)->Some_0)
}

/// The whole decoding: each group of eight characters gives five bytes; a
/// final short group must hold two, four, five or seven characters.
pub open spec fn b32_decode(s: Seq<u8>) -> Option<Seq<u8>>
    decreases s.len(),
{
    if s.len() == 0 {
        Some(Seq::empty())
    } else if s.len() >= 8 {
        if all_b32_chars(s.take(8)) {
            match b32_decode(s.skip(8)) {
                Some(rest) => Some(dec_bytes(vals_of(s.take(8))) + rest),
                None => None,
            }
        } else {
            None
        }
    } else if s.len() == 2 || s.len() == 4 || s.len() == 5 || s.len() == 7 {
        if all_b32_chars(s) {
            Some(dec_bytes(vals_of(s)))
        } else {
            None
        }
    } else {
        None
    }
}

/// A denoted value is five bits, and encoding then reading a value is the
/// identity; encoded characters are letters or digits, never a dot.
pub proof fn lemma_b32_char_val(v: u8)
    requires
        v < 32,
    ensures
        b32_val_of(b32_char_of(v)) == Some(v),
        b32_char_of(v) != 46,
        b32_char_of(v) != 0,
{
}

/// All eight five-bit values of a group are below thirty-two.
proof fn lemma_enc_vals_bounds(a: u8, b: u8, c: u8, d: u8, e: u8)
    ensures
        a >> 3 < 32,
        (((a & 0x07) << 2) | (b >> 6)) < 32,
        ((b >> 1) & 0x1f) < 32,
        (((b & 0x01) << 4) | (c >> 4)) < 32,
        (((c & 0x0f) << 1) | (d >> 7)) < 32,
        ((d >> 2) & 0x1f) < 32,
        (((d & 0x03) << 3) | (e >> 5)) < 32,
        (e & 0x1f) < 32,
{
    assert(a >> 3 < 32 && (((a & 0x07) << 2) | (b >> 6)) < 32 && ((b >> 1) & 0x1f) < 32 && (((b
        & 0x01) << 4) | (c >> 4)) < 32 && (((c & 0x0f) << 1) | (d >> 7)) < 32 && ((d >> 2) & 0x1f)
        < 32 && (((d & 0x03) << 3) | (e >> 5)) < 32 && (e & 0x1f) < 32) by (bit_vector);
}

/// Decoding the values of a group gives the group's bytes back.
proof fn lemma_group_round(a: u8, b: u8, c: u8, d: u8, e: u8)
    ensures
        ((a >> 3) << 3) | ((((a & 0x07) << 2) | (b >> 6)) >> 2) == a,
        (((((a & 0x07) << 2) | (b >> 6)) & 0x03) << 6) | (((b >> 1) & 0x1f) << 1) | ((((b & 0x01)
            << 4) | (c >> 4)) >> 4) == b,
        ((((b & 0x01) << 4) | (c >> 4)) & 0x0f) << 4 | ((((c & 0x0f) << 1) | (d >> 7)) >> 1) == c,
        (((((c & 0x0f) << 1) | (d >> 7)) & 0x01) << 7) | (((d >> 2) & 0x1f) << 2) | ((((d & 0x03)
            << 3) | (e >> 5)) >> 3) == d,
        ((((d & 0x03) << 3) | (e >> 5)) & 0x07) << 5 | (e & 0x1f) == e,
{
    assert(((a >> 3) << 3) | ((((a & 0x07) << 2) | (b >> 6)) >> 2) == a) by (bit_vector);
    assert((((((a & 0x07) << 2) | (b >> 6)) & 0x03) << 6) | (((b >> 1) & 0x1f) << 1) | ((((b
        & 0x01) << 4) | (c >> 4)) >> 4) == b) by (bit_vector);
    assert(((((b & 0x01) << 4) | (c >> 4)) & 0x0f) << 4 | ((((c & 0x0f) << 1) | (d >> 7)) >> 1)
        == c) by (bit_vector);
    assert((((((c & 0x0f) << 1) | (d >> 7)) & 0x01) << 7) | (((d >> 2) & 0x1f) << 2) | ((((d
        & 0x03) << 3) | (e >> 5)) >> 3) == d) by (bit_vector);
    assert(((((d & 0x03) << 3) | (e >> 5)) & 0x07) << 5 | (e & 0x1f) == e) by (bit_vector);
}

/// One five-bit value to its character.
fn to_char(v: u8) -> (r: u8)
    requires
        v < 32,
    ensures
        r == b32_char_of(v),
{
    if v < 26 {
        v + 97
    } else {
        v + 24
    }
}

/// One character to its five-bit value, either case accepted.
fn from_char(c: u8) -> (r: Option<u8>)
    ensures
        r == b32_val_of(c),
        r matches Some(v) ==> v < 32,
{
    if 97 <= c && c <= 122 {
        Some(c - 97)
    } else if 65 <= c && c <= 90 {
        Some(c - 65)
    } else if 50 <= c && c <= 55 {
        Some(c - 24)
    } else {
        None
    }
}

/// Encodes bytes as unpadded lower-case base32 text.
pub fn encode(s: &[u8]) -> (r: Vec<u8>)
    ensures
        r@ == b32_encode(s@),
{
    let mut out: Vec<u8> = Vec::new();
    let mut i: usize = 0;
    proof {
        assert(s@.skip(0) =~= s@);
    }
    while i < s.len()
        invariant
            i <= s@.len(),
            b32_encode(s@) == out@ + b32_encode(s@.skip(i as int)),
        decreases s@.len() - i,
    {
        let ghost out0 = out@;
        let n = s.len();
        let g: usize = if n - i >= 5 {
            5
        } else {
            n - i
        };
        let a = s[i];
        let b = if g > 1 {
            s[i + 1]
        } else {
            0
        };
        let c = if g > 2 {
            s[i + 2]
        } else {
            0
        };
        let d = if g > 3 {
            s[i + 3]
        } else {
            0
        };
        let e = if g > 4 {
            s[i + 4]
        } else {
            0
        };
        proof {
            lemma_enc_vals_bounds(a, b, c, d, e);
        }
        let v0 = a >> 3;
        let v1 = ((a & 0x07) << 2) | (b >> 6);
        let v2 = (b >> 1) & 0x1f;
        let v3 = ((b & 0x01) << 4) | (c >> 4);
        let v4 = ((c & 0x0f) << 1) | (d >> 7);
        let v5 = (d >> 2) & 0x1f;
        let v6 = ((d & 0x03) << 3) | (e >> 5);
        let v7 = e & 0x1f;
        out.push(to_char(v0));
        out.push(to_char(v1));
        if g > 1 {
            out.push(to_char(v2));
            out.push(to_char(v3));
        }
        if g > 2 {
            out.push(to_char(v4));
        }
        if g > 3 {
            out.push(to_char(v5));
            out.push(to_char(v6));
        }
        if g > 4 {
            out.push(to_char(v7));
        }
        proof {
            let grp = s@.skip(i as int).take(g as int);
            assert(grp.len() == g);
            assert(grp[0] == a);
            if g > 1 {
                assert(grp[1] == b);
            }
            if g > 2 {
                assert(grp[2] == c);
            }
            if g > 3 {
                assert(grp[3] == d);
            }
            if g > 4 {
                assert(grp[4] == e);
            }
            assert(out@ =~= out0 + enc_group(grp));
            if g == 5 {
                assert(b32_encode(s@.skip(i as int)) == enc_group(grp) + b32_encode(
                    s@.skip(i as int).skip(5),
                ));
                assert(s@.skip(i as int).skip(5) =~= s@.skip(i + 5));
            } else {
                assert(grp =~= s@.skip(i as int));
                assert(b32_encode(s@.skip(i as int)) == enc_group(grp));
                assert(s@.skip(i + g) =~= Seq::<u8>::empty());
            }
            assert(b32_encode(s@) =~= out@ + b32_encode(s@.skip(i + g)));
        }
        i = i + g;
    }
    proof {
        assert(s@.skip(s@.len() as int) =~= Seq::<u8>::empty());
        assert(b32_encode(s@) =~= out@);
    }
    out
}

/// Decodes base32 text back to bytes; invalid characters or an impossible
/// length yield nothing.
pub fn decode(s: &[u8]) -> (r: Option<Vec<u8>>)
    ensures
        b32_decode(s@) matches Some(bs) ==> r matches Some(v) && v@ == bs,
        b32_decode(s@) is None ==> r is None,
{
    let mut out: Vec<u8> = Vec::new();
    let mut i: usize = 0;
    proof {
        assert(s@.skip(0) =~= s@);
    }
    while i < s.len()
        invariant
            i <= s@.len(),
            b32_decode(s@.skip(i as int)) matches Some(rest) ==> b32_decode(s@) == Some(
                out@ + rest,
            ),
            b32_decode(s@.skip(i as int)) is None ==> b32_decode(s@) is None,
        decreases s@.len() - i,
    {
        let ghost out0 = out@;
        let ghost sfx = s@.skip(i as int);
        let n = s.len();
        let rem = n - i;
        let g: usize = if rem >= 8 {
            8
        } else {
            rem
        };
        if g == 1 || g == 3 || g == 6 {
            proof {
                assert(b32_decode(sfx) is None);
            }
            return None;
        }
        let mut vals: Vec<u8> = Vec::new();
        let mut j: usize = 0;
        let mut bad: bool = false;
        while j < g && !bad
            invariant
                j <= g,
                g <= rem,
                rem == n - i,
                i + g <= s@.len(),
                n == s@.len(),
                sfx == s@.skip(i as int),
                !bad ==> vals@.len() == j && forall|q: int| 0 <= q < j ==> b32_val_of(
                    #[trigger] sfx[q],
                ) == Some(vals@[q]) && vals@[q] < 32,
                bad ==> exists|q: int| 0 <= q < g && b32_val_of(#[trigger] sfx[q]) is None,
            decreases g - j,
        {
            match from_char(s[i + j]) {
                Some(v) => {
                    vals.push(v);
                },
                None => {
                    proof {
                        assert(sfx[j as int] == s@[i + j]);
                    }
                    bad = true;
                },
            }
            j = j + 1;
        }
        if bad {
            proof {
                let grp = if g == 8 {
                    sfx.take(8)
                } else {
                    sfx
                };
                assert(!all_b32_chars(grp)) by {
                    let q = choose|q: int| 0 <= q < g && b32_val_of(#[trigger] sfx[q]) is None;
                    assert(grp[q] == sfx[q]);
                }
                assert(b32_decode(sfx) is None);
            }
            return None;
        }
        let v0 = vals[0];
        let v1 = vals[1];
        let v2 = if g > 2 {
            vals[2]
        } else {
            0
        };
        let v3 = if g > 3 {
            vals[3]
        } else {
            0
        };
        let v4 = if g > 4 {
            vals[4]
        } else {
            0
        };
        let v5 = if g > 5 {
            vals[5]
        } else {
            0
        };
        let v6 = if g > 6 {
            vals[6]
        } else {
            0
        };
        let v7 = if g > 7 {
            vals[7]
        } else {
            0
        };
        let a = (v0 << 3) | (v1 >> 2);
        let b = ((v1 & 0x03) << 6) | (v2 << 1) | (v3 >> 4);
        let c = ((v3 & 0x0f) << 4) | (v4 >> 1);
        let d = ((v4 & 0x01) << 7) | (v5 << 2) | (v6 >> 3);
        let e = ((v6 & 0x07) << 5) | v7;
        out.push(a);
        if g == 4 || g == 5 || g == 7 || g == 8 {
            out.push(b);
        }
        if g == 5 || g == 7 || g == 8 {
            out.push(c);
        }
        if g == 7 || g == 8 {
            out.push(d);
        }
        if g == 8 {
            out.push(e);
        }
        proof {
            let grp = if g == 8 {
                sfx.take(8)
            } else {
                sfx
            };
            assert(grp.len() == g);
            assert(all_b32_chars(grp)) by {
                assert(forall|q: int| 0 <= q < g ==> b32_val_of(#[trigger] grp[q]) == Some(
                    vals@[q],
                ));
            }
            assert(vals_of(grp) =~= vals@);
            assert(out@ =~= out0 + dec_bytes(vals@));
            if g == 8 {
                assert(sfx.skip(8) =~= s@.skip(i + 8));
                assert(b32_decode(sfx) matches Some(rs) ==> rs == dec_bytes(vals_of(grp))
                    + b32_decode(sfx.skip(8))->Some_0);
            } else {
                assert(s@.skip(i + g) =~= Seq::<u8>::empty());
                assert(b32_decode(sfx) == Some(dec_bytes(vals_of(grp))));
            }
        }
        i = i + g;
    }
    proof {
        assert(s@.skip(s@.len() as int) =~= Seq::<u8>::empty());
        assert(b32_decode(s@) matches Some(bs) ==> bs =~= out@);
    }
    Some(out)
}

/// Decoding an encoding gives the bytes back, whole and unchanged.
pub proof fn lemma_b32_round_trip(s: Seq<u8>)
    ensures
        b32_decode(b32_encode(s)) == Some(s),
    decreases s.len(),
{
    if s.len() == 0 {
        assert(b32_encode(s) =~= Seq::<u8>::empty());
    } else {
        let g = if s.len() >= 5 {
            s.take(5)
        } else {
            s
        };
        let gl = g.len() as int;
        let a = g[0];
        let b = if gl > 1 {
            g[1]
        } else {
            0
        };
        let c = if gl > 2 {
            g[2]
        } else {
            0
        };
        let d = if gl > 3 {
            g[3]
        } else {
            0
        };
        let e = if gl > 4 {
            g[4]
        } else {
            0
        };
        lemma_enc_vals_bounds(a, b, c, d, e);
        lemma_group_round(a, b, c, d, e);
        let chars = enc_group(g);
        assert(chars.len() == enc_vals(g).len());
        assert(forall|q: int| 0 <= q < enc_vals(g).len() ==> enc_vals(g)[q] < 32) by {
            assert(forall|q: int| 0 <= q < enc_vals(g).len() ==> #[trigger] enc_vals(g)[q]
                == enc_vals(g)[q]);
        }
        assert(all_b32_chars(chars)) by {
            assert forall|q: int| 0 <= q < chars.len() implies (#[trigger] b32_val_of(
                chars[q],
            )) is Some by {
                assert(chars[q] == b32_char_of(enc_vals(g)[q]));
                lemma_b32_char_val(enc_vals(g)[q]);
            }
        }
        assert(vals_of(chars) =~= enc_vals(g)) by {
            assert forall|q: int| 0 <= q < chars.len() implies vals_of(chars)[q] == enc_vals(
                g,
            )[q] by {
                lemma_b32_char_val(enc_vals(g)[q]);
            }
        }
        assert(dec_bytes(enc_vals(g)) =~= g);
        if s.len() >= 5 {
            lemma_b32_round_trip(s.skip(5));
            let enc = b32_encode(s);
            assert(enc == chars + b32_encode(s.skip(5)));
            assert(enc.len() >= 8);
            assert(enc.take(8) =~= chars);
            assert(enc.skip(8) =~= b32_encode(s.skip(5)));
            assert(b32_decode(enc) == Some(g + s.skip(5)));
            assert(g + s.skip(5) =~= s);
        } else {
            let enc = b32_encode(s);
            assert(enc == chars);
            assert(enc.len() == 2 || enc.len() == 4 || enc.len() == 5 || enc.len() == 7);
            assert(enc.len() < 8);
            assert(b32_decode(enc) == Some(dec_bytes(vals_of(chars))));
            assert(b32_decode(enc) == Some(s));
        }
    }
}

/// Bounds on the encoded length: five times the character count stays
/// within eight times the byte count plus four, and one byte makes at
/// least two characters.
pub proof fn lemma_b32_encode_len(s: Seq<u8>)
    ensures
        5 * b32_encode(s).len() <= 8 * s.len() + 4,
        s.len() >= 1 ==> b32_encode(s).len() >= 2,
    decreases s.len(),
{
    if s.len() >= 5 {
        lemma_b32_encode_len(s.skip(5));
    }
}

/// Encoded characters are letters or digits, never dots.
pub proof fn lemma_b32_encode_dotless(s: Seq<u8>)
    ensures
        forall|i: int| 0 <= i < b32_encode(s).len() ==> #[trigger] b32_encode(s)[i] != 46,
    decreases s.len(),
{
    if s.len() == 0 {
    } else {
        let g = if s.len() >= 5 {
            s.take(5)
        } else {
            s
        };
        let a = g[0];
        let b = if g.len() > 1 {
            g[1]
        } else {
            0
        };
        let c = if g.len() > 2 {
            g[2]
        } else {
            0
        };
        let d = if g.len() > 3 {
            g[3]
        } else {
            0
        };
        let e = if g.len() > 4 {
            g[4]
        } else {
            0
        };
        lemma_enc_vals_bounds(a, b, c, d, e);
        assert forall|i: int| 0 <= i < enc_group(g).len() implies #[trigger] enc_group(g)[i] != 46
            by {
            assert(enc_group(g)[i] == b32_char_of(enc_vals(g)[i]));
            lemma_b32_char_val(enc_vals(g)[i]);
        }
        if s.len() >= 5 {
            lemma_b32_encode_dotless(s.skip(5));
            assert forall|i: int| 0 <= i < b32_encode(s).len() implies #[trigger] b32_encode(
                s,
            )[i] != 46 by {
                if i < 8 {
                    assert(b32_encode(s)[i] == enc_group(g)[i]);
                } else {
                    assert(b32_encode(s)[i] == b32_encode(s.skip(5))[i - 8]);
                }
            }
        }
    }
}

} // verus!
