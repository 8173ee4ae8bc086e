//! DNS name codec: wire labels to dotted text and back.
//!
//! A name on the wire is a run of length-prefixed labels ended by a zero
//! byte, possibly reached through compression pointers. In text form the
//! labels are joined with dots and the name carries one trailing dot; the
//! root name alone is a single dot.

use vstd::prelude::*;
use crate::bytestr::{DOT, lower_seq, trim_dots, to_lower_bytes, trim_dots_len, range_ends_with, ends_with};
use crate::dns_types::{DnsError, Rcode};

verus! {

/// Longest accepted text form of a name, excluding the trailing root dot.
pub const MAX_DNS_NAME_LEN: usize = 253;

/// The wire bytes of a label list before the terminator.
pub open spec fn labels_wire_body(labels: Seq<Seq<u8>>) -> Seq<u8>
    decreases labels.len(),
{
    if labels.len() == 0 {
        Seq::empty()
    } else {
        seq![labels[0].len() as u8] + labels[0] + labels_wire_body(labels.drop_first())
    }
}

/// The wire bytes of a label list: length-prefixed labels, then a zero.
pub open spec fn labels_wire(labels: Seq<Seq<u8>>) -> Seq<u8> {
    labels_wire_body(labels) + seq![0u8]
}

/// Text of a non-empty label list: each label followed by one dot.
pub open spec fn labels_text_ne(labels: Seq<Seq<u8>>) -> Seq<u8>
    decreases labels.len(),
{
    if labels.len() == 0 {
        Seq::empty()
    } else {
        labels[0] + seq![DOT] + labels_text_ne(labels.drop_first())
    }
}

/// Text form of a parsed name: the root is a lone dot.
pub open spec fn labels_text(labels: Seq<Seq<u8>>) -> Seq<u8> {
    if labels.len() == 0 {
        seq![DOT]
    } else {
        labels_text_ne(labels)
    }
}

/// Length of the dotted text without a trailing dot: labels plus separators.
pub open spec fn name_len(labels: Seq<Seq<u8>>) -> int
    decreases labels.len(),
{
    if labels.len() == 0 {
        0
    } else if labels.len() == 1 {
        labels[0].len() as int
    } else {
        labels[0].len() + 1 + name_len(labels.drop_first())
    }
}

/// Every label fits a wire length byte: one to sixty-three bytes.
pub open spec fn labels_sized(labels: Seq<Seq<u8>>) -> bool {
    forall|i: int| 0 <= i < labels.len() ==> 1 <= #[trigger] labels[i].len() <= 63
}

/// The plain-label parser: follows no pointers.
///
/// Returns the labels and the offset one past the terminating zero, or
/// nothing when the bytes at `o` are not a pointer-free name.
pub open spec fn spec_parse_plain_labels(packet: Seq<u8>, o: int) -> Option<(Seq<Seq<u8>>, int)>
    decreases packet.len() - o,
{
    if o < 0 || o >= packet.len() {
        None
    } else if packet[o] == 0 {
        Some((Seq::empty(), o + 1))
    } else if packet[o] >= 64 {
        None
    } else if o + 1 + packet[o] > packet.len() {
        None
    } else {
        let lab = packet.subrange(o + 1, o + 1 + packet[o]);
        match spec_parse_plain_labels(packet, o + 1 + packet[o]) {
            Some((rest, e)) => Some((seq![lab] + rest, e)),
            None => None,
        }
    }
}

/// A successful plain parse stays inside the packet and yields sized labels.
pub proof fn lemma_plain_labels_bounds(packet: Seq<u8>, o: int)
    requires
        spec_parse_plain_labels(packet, o) is Some,
    ensures
        o < spec_parse_plain_labels(packet, o)->Some_0.1 <= packet.len(),
        labels_sized(spec_parse_plain_labels(packet, o)->Some_0.0),
    decreases packet.len() - o,
{
    let b = packet[o];
    if b != 0 {
        lemma_plain_labels_bounds(packet, o + 1 + b);
    }
}

/// Name length grows with each appended label.
pub proof fn lemma_name_len_push(labels: Seq<Seq<u8>>, lab: Seq<u8>)
    ensures
        name_len(labels.push(lab)) == name_len(labels) + lab.len() + if labels.len() == 0 {
            0int
        } else {
            1int
        },
    decreases labels.len(),
{
    if labels.len() == 0 {
        assert(labels.push(lab) =~= seq![lab]);
    } else {
        lemma_name_len_push(labels.drop_first(), lab);
        assert(labels.push(lab).drop_first() =~= labels.drop_first().push(lab));
    }
}

/// A prefix of a label list never has the longer text.
pub proof fn lemma_name_len_prefix(a: Seq<Seq<u8>>, b: Seq<Seq<u8>>)
    ensures
        name_len(a) <= name_len(a + b),
    decreases b.len(),
{
    if b.len() == 0 {
        assert(a + b =~= a);
    } else {
        lemma_name_len_prefix(a.push(b[0]), b.drop_first());
        lemma_name_len_push(a, b[0]);
        assert(a.push(b[0]) + b.drop_first() =~= a + b);
    }
}

/// Text of an extended label list: the new label and a dot at the end.
pub proof fn lemma_labels_text_ne_push(labels: Seq<Seq<u8>>, lab: Seq<u8>)
    ensures
        labels_text_ne(labels.push(lab)) == labels_text_ne(labels) + lab + seq![DOT],
    decreases labels.len(),
{
    if labels.len() == 0 {
        let p = labels.push(lab);
        assert(p.len() == 1);
        assert(labels_text_ne(p) == p[0] + seq![DOT] + labels_text_ne(p.drop_first()));
        assert(p.drop_first() =~= Seq::<Seq<u8>>::empty());
        assert(p[0] == lab);
        assert(labels_text_ne(p.drop_first()) == Seq::<u8>::empty());
        assert(lab + seq![DOT] + Seq::<u8>::empty() =~= lab + seq![DOT]);
        assert(labels_text_ne(labels) == Seq::<u8>::empty());
        assert(labels_text_ne(labels) + lab + seq![DOT] =~= lab + seq![DOT]);
        assert(labels_text_ne(labels.push(lab)) == labels_text_ne(labels) + lab + seq![DOT]);
    } else {
        lemma_labels_text_ne_push(labels.drop_first(), lab);
        assert(labels.push(lab).drop_first() =~= labels.drop_first().push(lab));
        assert(labels_text_ne(labels.push(lab)) =~= labels_text_ne(labels) + lab + seq![DOT]);
    }
}

/// The text of a non-empty label list is one byte longer than its name
/// length: the trailing dot.
pub proof fn lemma_text_len(labels: Seq<Seq<u8>>)
    requires
        labels.len() > 0,
    ensures
        labels_text_ne(labels).len() == name_len(labels) + 1,
    decreases labels.len(),
{
    if labels.len() == 1 {
        assert(labels.drop_first() =~~= Seq::<Seq<u8>>::empty());
        assert(labels_text_ne(labels) == labels[0] + seq![DOT] + labels_text_ne(
            labels.drop_first(),
        ));
        assert(labels_text_ne(labels.drop_first()).len() == 0);
    } else {
        lemma_text_len(labels.drop_first());
        assert(labels_text_ne(labels) == labels[0] + seq![DOT] + labels_text_ne(
            labels.drop_first(),
        ));
    }
}

/// A plain parse result within the text-length cap, if there is one.
pub open spec fn plain_name_at(packet: Seq<u8>, o: int) -> Option<(Seq<Seq<u8>>, int)> {
    match spec_parse_plain_labels(packet, o) {
        Some((labels, e)) => if name_len(labels) <= 253 {
            Some((labels, e))
        } else {
            None
        },
        None => None,
    }
}

/// Where a compression pointer at `o` points, if one stands there.
pub open spec fn pointer_target(packet: Seq<u8>, o: int) -> Option<int> {
    if 0 <= o && o + 1 < packet.len() && packet[o] & 0xC0 == 0xC0 {
        Some(((packet[o] & 0x3F) as int) * 256 + packet[o + 1] as int)
    } else {
        None
    }
}

/// The name a single compression pointer at `o` leads to, when its target
/// is in reach of the plain parser.
pub open spec fn pointer_name_at(packet: Seq<u8>, o: int) -> Option<(Seq<Seq<u8>>, int)> {
    match pointer_target(packet, o) {
        Some(p) => plain_name_at(packet, p),
        None => None,
    }
}

/// The labels a name at `o` resolves to, following at most `fuel`
/// compression pointers: the ground truth `parse_name` answers against.
/// A chain that runs out of fuel (a loop, or a too-deep chain), a length
/// byte past the packet, or an out-of-range pointer resolves to nothing.
pub open spec fn spec_resolve_name(packet: Seq<u8>, o: int, fuel: int) -> Option<Seq<Seq<u8>>>
    decreases fuel, packet.len() - o,
{
    if o < 0 || o >= packet.len() {
        None
    } else if packet[o] == 0 {
        Some(Seq::empty())
    } else if packet[o] & 0xC0 == 0xC0 {
        if o + 1 >= packet.len() || fuel <= 0 {
            None
        } else {
            let ptr = ((packet[o] & 0x3F) as int) * 256 + packet[o + 1];
            if ptr >= packet.len() {
                None
            } else {
                spec_resolve_name(packet, ptr, fuel - 1)
            }
        }
    } else if packet[o] >= 64 {
        None
    } else if o + 1 + packet[o] > packet.len() {
        None
    } else {
        match spec_resolve_name(packet, o + 1 + packet[o], fuel) {
            Some(rest) => Some(seq![packet.subrange(o + 1, o + 1 + packet[o])] + rest),
            None => None,
        }
    }
}

/// Copies `packet[from..to]` out of the slice.
pub fn copy_range(packet: &[u8], from: usize, to: usize) -> (r: Vec<u8>)
    requires
        from <= to <= packet@.len(),
    ensures
        r@ == packet@.subrange(from as int, to as int),
{
    let mut out: Vec<u8> = Vec::new();
    let mut i: usize = from;
    while i < to
        invariant
            from <= i <= to <= packet@.len(),
            out@ == packet@.subrange(from as int, i as int),
        decreases to - i,
    {
        out.push(packet[i]);
        proof {
            assert(out@ =~= packet@.subrange(from as int, i + 1));
        }
        i = i + 1;
    }
    out
}

/// Whether the list of visited pointer offsets already holds `v`.
fn seen_contains(seen: &Vec<usize>, v: usize) -> (r: bool)
    ensures
        r == seen@.contains(v),
{
    let mut i: usize = 0;
    while i < seen.len()
        invariant
            i <= seen@.len(),
            forall|j: int| 0 <= j < i ==> seen@[j] != v,
        decreases seen@.len() - i,
    {
        if seen[i] == v {
            return true;
        }
        i = i + 1;
    }
    false
}

/// Joins collected labels into dotted text; the root name is a lone dot.
fn labels_to_text(labels: &Vec<Vec<u8>>) -> (r: Vec<u8>)
    ensures
        r@ == labels_text(labels.deep_view()),
        r@.len() >= 1,
        labels@.len() == 0 ==> r@.len() == 1,
        labels@.len() > 0 ==> r@.len() == name_len(labels.deep_view()) + 1,
{
    let ghost dv = labels.deep_view();
    let mut out: Vec<u8> = Vec::new();
    if labels.len() == 0 {
        out.push(DOT);
        proof {
            assert(dv.len() == 0);
            assert(out@ =~= seq![DOT]);
        }
        return out;
    }
    let mut i: usize = 0;
    proof {
        assert(labels_text_ne(dv.take(0)) =~= Seq::<u8>::empty());
        assert(out@ =~= Seq::<u8>::empty());
    }
    while i < labels.len()
        invariant
            i <= labels@.len(),
            dv == labels.deep_view(),
            dv.len() == labels@.len(),
            out@ == labels_text_ne(dv.take(i as int)),
        decreases labels@.len() - i,
    {
        let ghost out0 = out@;
        let lab_len = labels[i].len();
        let mut j: usize = 0;
        while j < lab_len
            invariant
                j <= lab_len,
                i < labels@.len(),
                dv == labels.deep_view(),
                lab_len == labels@[i as int]@.len(),
                out@ == out0 + labels@[i as int]@.take(j as int),
            decreases lab_len - j,
        {
            let b = labels[i][j];
            out.push(b);
            proof {
                assert(out@ =~= out0 + labels@[i as int]@.take(j + 1));
            }
            j = j + 1;
        }
        out.push(DOT);
        proof {
            assert(dv[i as int] == labels@[i as int]@);
            assert(labels@[i as int]@.take(lab_len as int) =~= labels@[i as int]@);
            assert(out@ =~= out0 + dv[i as int] + seq![DOT]);
            lemma_labels_text_ne_push(dv.take(i as int), dv[i as int]);
            assert(dv.take(i as int).push(dv[i as int]) =~= dv.take(i + 1));
        }
        i = i + 1;
    }
    proof {
        assert(dv.take(dv.len() as int) =~= dv);
        assert(labels_text_ne(dv).len() >= 1) by {
            assert(labels_text_ne(dv) == dv[0] + seq![DOT] + labels_text_ne(dv.drop_first()));
        }
        lemma_text_len(dv);
    }
    out
}

/// Reads one name, following compression pointers.
///
/// The contract pins the result wherever the name is in reach of the plain
/// parser: either directly at `start`, or through a single pointer standing
/// at `start`. Looping or over-deep pointer chains, out-of-range lengths and
/// over-long names are refused.
pub fn parse_name(packet: &[u8], start: usize) -> (r: Result<(Vec<u8>, usize), DnsError>)
    ensures
        r matches Ok(t) ==> start < t.1 <= packet@.len() && 1 <= t.0@.len() <= 254,
        r matches Ok(t) ==> (spec_resolve_name(packet@, start as int, 16) matches Some(rl) && t.0@
            == labels_text(rl) && name_len(rl) <= 253),
        plain_name_at(packet@, start as int) matches Some(pr) ==> r matches Ok(t) && t.0@
            == labels_text(pr.0) && t.1 == pr.1,
        pointer_name_at(packet@, start as int) matches Some(pr) ==> r matches Ok(t) && t.0@
            == labels_text(pr.0) && t.1 == start + 2,
{
    let ghost pre_plain = plain_name_at(packet@, start as int);
    let ghost pre_ptr = pointer_name_at(packet@, start as int);
    if start >= packet.len() {
        return Err(DnsError::new("name out of range"));
    }
    let mut labels: Vec<Vec<u8>> = Vec::new();
    let mut offset: usize = start;
    let mut jumped: bool = false;
    let mut end_offset: usize = start;
    let mut seen: Vec<usize> = Vec::new();
    let mut depth: usize = 0;
    let mut nlen: usize = 0;
    proof {
        assert(labels.deep_view() =~~= Seq::<Seq<u8>>::empty());
        if spec_resolve_name(packet@, start as int, 16) is Some {
            assert(Seq::<Seq<u8>>::empty() + spec_resolve_name(packet@, start as int, 16)->Some_0
                =~~= spec_resolve_name(packet@, start as int, 16)->Some_0);
        }
    }
    loop
        invariant
            start < packet@.len(),
            offset <= packet@.len(),
            depth <= 16,
            nlen <= 253,
            nlen == name_len(labels.deep_view()),
            spec_resolve_name(packet@, offset as int, 16 - depth) matches Some(rest)
                ==> spec_resolve_name(packet@, start as int, 16) == Some(
                labels.deep_view() + rest,
            ),
            !jumped ==> start <= offset && end_offset == offset && seen@.len() == 0 && depth == 0,
            jumped ==> start + 2 <= end_offset && end_offset <= packet@.len(),
            pre_plain == plain_name_at(packet@, start as int),
            pre_ptr == pointer_name_at(packet@, start as int),
            pre_plain matches Some(pr) ==> !jumped && labels.deep_view() =~~= pr.0.take(
                labels@.len() as int,
            ) && labels@.len() <= pr.0.len() && spec_parse_plain_labels(packet@, offset as int)
                == Some((pr.0.skip(labels@.len() as int), pr.1)) && nlen == name_len(
                labels.deep_view(),
            ),
            pre_ptr matches Some(pr) ==> (!jumped && offset == start && labels@.len() == 0 && nlen
                == 0) || (jumped && end_offset == start + 2 && labels.deep_view() =~~= pr.0.take(
                labels@.len() as int,
            ) && labels@.len() <= pr.0.len() && spec_parse_plain_labels(packet@, offset as int)
                == Some((pr.0.skip(labels@.len() as int), pr.1)) && nlen == name_len(
                labels.deep_view(),
            )),
        decreases 16 - depth, packet@.len() - offset,
    {
        let ghost dv = labels.deep_view();
        let ghost k = labels@.len() as int;
        let ghost anchored = (pre_plain is Some && !jumped) || (pre_ptr is Some && jumped);
        let ghost pr = if pre_plain is Some {
            pre_plain->Some_0
        } else {
            pre_ptr->Some_0
        };
        proof {
            if pre_ptr is Some && !jumped {
                assert(packet@[start as int] & 0xC0 == 0xC0);
            }
            if anchored {
                assert(spec_parse_plain_labels(packet@, offset as int) == Some(
                    (pr.0.skip(k), pr.1),
                ));
            }
        }
        if offset >= packet.len() {
            proof {
                if anchored {
                    assert(false);
                }
                if pre_ptr is Some && !jumped {
                    assert(offset == start && start < packet@.len());
                    assert(false);
                }
            }
            return Err(DnsError::new("name out of range"));
        }
        let len_byte = packet[offset];
        proof {
            if anchored {
                // A live plain parse admits only a terminator or a short label.
                assert(len_byte == 0 || len_byte < 64);
            }
        }
        if len_byte & 0xC0 == 0xC0 {
            proof {
                if anchored {
                    assert(!(len_byte & 0xC0 == 0xC0)) by (bit_vector)
                        requires
                            len_byte == 0 || len_byte < 64,
                    ;
                    assert(false);
                }
            }
            if offset + 1 >= packet.len() {
                proof {
                    if pre_ptr is Some {
                        assert(offset == start);
                        assert(pointer_target(packet@, start as int) is Some);
                        assert(false);
                    }
                }
                return Err(DnsError::new("truncated pointer"));
            }
            let ptr: usize = ((len_byte & 0x3F) as usize) * 256 + (packet[offset + 1] as usize);
            if ptr >= packet.len() {
                proof {
                    if pre_ptr is Some {
                        assert(offset == start);
                        assert(ptr == pointer_target(packet@, start as int)->Some_0);
                        assert(spec_parse_plain_labels(packet@, ptr as int) is Some);
                        assert(false);
                    }
                }
                return Err(DnsError::new("pointer out of range"));
            }
            if seen_contains(&seen, ptr) {
                proof {
                    if pre_ptr is Some {
                        assert(offset == start && seen@.len() == 0);
                        assert(false);
                    }
                }
                return Err(DnsError::new("pointer loop"));
            }
            let ghost jump_from = offset as int;
            let ghost depth_old = depth as int;
            seen.push(ptr);
            if !jumped {
                end_offset = offset + 2;
                jumped = true;
            }
            offset = ptr;
            depth = depth + 1;
            if depth > 16 {
                proof {
                    if pre_ptr is Some {
                        assert(false);
                    }
                }
                return Err(DnsError::new("pointer depth exceeded"));
            }
            proof {
                if pre_plain is Some {
                    // A plain name never reaches a pointer.
                    assert(false);
                }
                if pre_ptr is Some {
                    let prv = pre_ptr->Some_0;
                    assert(offset == pointer_target(packet@, start as int)->Some_0);
                    assert(spec_parse_plain_labels(packet@, offset as int) == Some(
                        (prv.0, prv.1),
                    ));
                    assert(prv.0.skip(0) =~~= prv.0);
                    assert(labels.deep_view() =~~= prv.0.take(0));
                }
                assert(len_byte != 0) by (bit_vector)
                    requires
                        len_byte & 0xC0 == 0xC0,
                ;
                if spec_resolve_name(packet@, offset as int, 16 - depth) matches Some(rest) {
                    assert(spec_resolve_name(packet@, jump_from, 16 - depth_old)
                        == spec_resolve_name(packet@, offset as int, 16 - depth)) by {
                        assert(packet@[jump_from] == len_byte);
                        assert(16 - depth_old > 0);
                        assert(((packet@[jump_from] & 0x3F) as int) * 256 + packet@[jump_from
                            + 1] == ptr as int);
                    }
                }
            }
            continue ;
        }
        if len_byte == 0 {
            proof {
                if pre_ptr is Some && !jumped {
                    let sb = packet@[start as int];
                    assert(!(sb == 0)) by (bit_vector)
                        requires
                            sb & 0xC0 == 0xC0,
                    ;
                    assert(false);
                }
                assert(spec_resolve_name(packet@, offset as int, 16 - depth) == Some(
                    Seq::<Seq<u8>>::empty(),
                ));
                assert(labels.deep_view() + Seq::<Seq<u8>>::empty() =~~= labels.deep_view());
                assert(spec_resolve_name(packet@, start as int, 16) == Some(labels.deep_view()));
            }
            offset = offset + 1;
            if !jumped {
                end_offset = offset;
            }
            proof {
                if anchored {
                    assert(pr.0.skip(k) =~~= Seq::<Seq<u8>>::empty());
                    assert(pr.0.take(k) =~~= pr.0);
                    assert(labels.deep_view() =~~= pr.0);
                }
                if pre_plain is Some {
                    assert(end_offset == pr.1);
                }
            }
            let text = labels_to_text(&labels);
            return Ok((text, end_offset));
        }
        if len_byte > 63 {
            proof {
                if anchored {
                    assert(false);
                }
                if pre_ptr is Some && !jumped {
                    let sb = packet@[start as int];
                    assert(sb & 0xC0 == 0xC0 && sb == len_byte && !(len_byte & 0xC0 == 0xC0));
                    assert(false) by (bit_vector)
                        requires
                            sb & 0xC0 == 0xC0 && sb == len_byte && !(len_byte & 0xC0 == 0xC0),
                    ;
                }
            }
            return Err(DnsError::new("label too long"));
        }
        proof {
            if pre_ptr is Some && !jumped {
                let sb = packet@[start as int];
                assert(sb & 0xC0 == 0xC0 && sb == len_byte && !(len_byte & 0xC0 == 0xC0));
                assert(false) by (bit_vector)
                    requires
                        sb & 0xC0 == 0xC0 && sb == len_byte && !(len_byte & 0xC0 == 0xC0),
                ;
            }
        }
        if (len_byte as usize) > packet.len() - (offset + 1) {
            proof {
                if anchored {
                    assert(false);
                }
            }
            return Err(DnsError::new("label out of range"));
        }
        let lab_end = offset + 1 + (len_byte as usize);
        let mut step: usize = len_byte as usize;
        if labels.len() > 0 {
            step = step + 1;
        }
        proof {
            if anchored {
                let b = len_byte as int;
                let lab0 = packet@.subrange(offset + 1, offset + 1 + b);
                let suffix = pr.0.skip(k);
                let inner = spec_parse_plain_labels(packet@, offset + 1 + b);
                assert(inner is Some) by {
                    if inner is None {
                        assert(spec_parse_plain_labels(packet@, offset as int) is None);
                    }
                }
                assert(spec_parse_plain_labels(packet@, offset as int) == Some(
                    (seq![lab0] + inner->Some_0.0, inner->Some_0.1),
                ));
                assert(suffix == seq![lab0] + inner->Some_0.0);
                assert(suffix.len() > 0);
                assert(k < pr.0.len());
                assert(suffix[0] == lab0) by {
                    assert((seq![lab0] + inner->Some_0.0)[0] == lab0);
                }
                assert(suffix[0] == pr.0[k]) by {
                    assert(pr.0.skip(k)[0] == pr.0[k + 0]);
                }
                lemma_name_len_push(dv, pr.0[k]);
                assert(dv.push(pr.0[k]) =~~= pr.0.take(k + 1));
                lemma_name_len_prefix(pr.0.take(k + 1), pr.0.skip(k + 1));
                assert(pr.0.take(k + 1) + pr.0.skip(k + 1) =~~= pr.0);
                assert(name_len(pr.0.take(k + 1)) <= name_len(pr.0));
                assert(pr.0[k].len() == b);
                assert(nlen + step == name_len(pr.0.take(k + 1)));
            }
        }
        if nlen + step > 253 {
            proof {
                if anchored {
                    assert(false);
                }
            }
            return Err(DnsError::new("name too long"));
        }
        nlen = nlen + step;
        let lab = copy_range(packet, offset + 1, lab_end);
        labels.push(lab);
        let ghost old_offset = offset as int;
        offset = lab_end;
        if !jumped {
            end_offset = offset;
        }
        proof {
            assert(labels.deep_view() =~~= dv.push(packet@.subrange(
                old_offset + 1,
                lab_end as int,
            )));
            lemma_name_len_push(dv, packet@.subrange(old_offset + 1, lab_end as int));
            assert(packet@.subrange(old_offset + 1, lab_end as int).len() == len_byte as int);
            if spec_resolve_name(packet@, offset as int, 16 - depth) is Some {
                let rest = spec_resolve_name(packet@, offset as int, 16 - depth)->Some_0;
                let lab0 = packet@.subrange(old_offset + 1, lab_end as int);
                assert(spec_resolve_name(packet@, old_offset, 16 - depth) == Some(
                    seq![lab0] + rest,
                )) by {
                    assert(packet@[old_offset] == len_byte);
                    assert(len_byte != 0 && !(len_byte & 0xC0 == 0xC0) && len_byte < 64);
                    assert(old_offset + 1 + len_byte == lab_end as int);
                }
                assert(dv + (seq![lab0] + rest) =~~= labels.deep_view() + rest);
            }
            if anchored {
                let b = len_byte as int;
                let lab0 = packet@.subrange(old_offset + 1, old_offset + 1 + b);
                let suffix = pr.0.skip(k);
                let inner = spec_parse_plain_labels(packet@, old_offset + 1 + b);
                assert(old_offset + 1 + b == lab_end as int);
                assert(suffix == seq![lab0] + inner->Some_0.0);
                assert(inner->Some_0.0 =~~= suffix.drop_first());
                assert(suffix.drop_first() =~~= pr.0.skip(k + 1));
                assert(inner->Some_0.1 == pr.1);
                assert(inner == Some((pr.0.skip(k + 1), pr.1)));
                assert(labels.deep_view() =~~= dv.push(lab0));
                assert(lab0 == pr.0[k]);
                assert(labels.deep_view() =~~= pr.0.take(k + 1));
                lemma_name_len_push(dv, pr.0[k]);
                assert(nlen == name_len(labels.deep_view()));
            }
        }
    }
}

/// Index of the first dot in `s`, or a negative value when there is none.
pub open spec fn find_dot(s: Seq<u8>) -> int
    decreases s.len(),
{
    if s.len() == 0 {
        -1
    } else if s[0] == DOT {
        0
    } else {
        let r = find_dot(s.drop_first());
        if r < 0 {
            -1
        } else {
            r + 1
        }
    }
}

/// `find_dot` finds exactly the first dot.
pub proof fn lemma_find_dot_char(s: Seq<u8>)
    ensures
        find_dot(s) < 0 ==> forall|i: int| 0 <= i < s.len() ==> s[i] != DOT,
        find_dot(s) >= 0 ==> 0 <= find_dot(s) < s.len() && s[find_dot(s)] == DOT && forall|i: int|
            0 <= i < find_dot(s) ==> s[i] != DOT,
    decreases s.len(),
{
    if s.len() > 0 && s[0] != DOT {
        let d = s.drop_first();
        lemma_find_dot_char(d);
        if find_dot(d) < 0 {
            assert forall|i: int| 0 <= i < s.len() implies s[i] != DOT by {
                if i > 0 {
                    assert(d[i - 1] != DOT);
                }
            }
        } else {
            assert(s[find_dot(s)] == d[find_dot(d)]);
            assert forall|i: int| 0 <= i < find_dot(s) implies s[i] != DOT by {
                if i > 0 {
                    assert(d[i - 1] != DOT);
                }
            }
        }
    }
}

/// Splits text at dots; an empty text yields one empty label.
pub open spec fn split_dot(s: Seq<u8>) -> Seq<Seq<u8>>
    decreases s.len(),
{
    if find_dot(s) < 0 || find_dot(s) >= s.len() {
        seq![s]
    } else {
        seq![s.take(find_dot(s))] + split_dot(s.skip(find_dot(s) + 1))
    }
}

/// Whether a name's text can be put on the wire: after trailing dots go,
/// each label holds one to sixty-three bytes, and the text stays in bounds.
pub open spec fn encodable_name(name: Seq<u8>) -> bool {
    name == seq![DOT] || {
        let labels = split_dot(trim_dots(name));
        labels_sized(labels) && name_len(labels) <= 253
    }
}

/// Appends the wire form of one more label.
pub proof fn lemma_wire_body_push(labels: Seq<Seq<u8>>, lab: Seq<u8>)
    ensures
        labels_wire_body(labels.push(lab)) == labels_wire_body(labels) + seq![lab.len() as u8]
            + lab,
    decreases labels.len(),
{
    if labels.len() == 0 {
        let p = labels.push(lab);
        assert(p.drop_first() =~~= Seq::<Seq<u8>>::empty());
        assert(p[0] == lab);
        assert(labels_wire_body(p) == seq![lab.len() as u8] + lab + labels_wire_body(
            p.drop_first(),
        ));
        assert(labels_wire_body(labels.push(lab)) =~= labels_wire_body(labels) + seq![
            lab.len() as u8,
        ] + lab);
    } else {
        lemma_wire_body_push(labels.drop_first(), lab);
        assert(labels.push(lab).drop_first() =~~= labels.drop_first().push(lab));
        assert(labels_wire_body(labels.push(lab)) =~= labels_wire_body(labels) + seq![
            lab.len() as u8,
        ] + lab);
    }
}

/// Writes `name` as length-prefixed labels onto `out`.
///
/// The buffer is left untouched when the name is refused; the conditions for
/// acceptance are exactly those of `encodable_name`.
pub fn encode_name(name: &[u8], out: &mut Vec<u8>) -> (r: Result<(), DnsError>)
    ensures
        r is Ok <==> encodable_name(name@),
        name@ == seq![DOT] ==> r is Ok && final(out)@ == old(out)@ + seq![0u8],
        (r is Ok && name@ != seq![DOT]) ==> final(out)@ == old(out)@ + labels_wire(
            split_dot(trim_dots(name@)),
        ),
        r is Err ==> final(out)@ == old(out)@,
{
    if name.len() == 1 && name[0] == DOT {
        proof {
            assert(name@ =~= seq![DOT]);
        }
        out.push(0);
        proof {
            assert(out@ =~= old(out)@ + seq![0u8]);
        }
        return Ok(());
    }
    proof {
        if name@ == seq![DOT] {
            assert(name@.len() == 1 && name@[0] == DOT);
        }
    }
    let t_end = trim_dots_len(name);
    let ghost tview = trim_dots(name@);
    let ghost whole = split_dot(tview);
    let mut buf: Vec<u8> = Vec::new();
    let mut pos: usize = 0;
    let mut nlen: usize = 0;
    let ghost mut k: int = 0;
    proof {
        crate::bytestr::lemma_trim_dots_no_trailing(name@);
        assert(whole.take(0) =~~= Seq::<Seq<u8>>::empty());
        assert(tview.subrange(0, t_end as int) =~= tview);
    }
    loop
        invariant
            out@ == old(out)@,
            pos <= t_end <= name@.len(),
            tview == trim_dots(name@),
            tview == name@.take(t_end as int),
            whole == split_dot(tview),
            name@ != seq![DOT],
            0 <= k <= whole.len(),
            whole.skip(k) == split_dot(tview.subrange(pos as int, t_end as int)),
            buf@ == labels_wire_body(whole.take(k)),
            nlen == name_len(whole.take(k)),
            nlen <= 253,
            labels_sized(whole.take(k)),
            k == 0 <==> pos == 0,
            pos > 0 ==> k > 0,
        decreases t_end - pos,
    {
        let ghost cur = tview.subrange(pos as int, t_end as int);
        let mut j: usize = pos;
        while j < t_end && name[j] != DOT
            invariant
                pos <= j <= t_end <= name@.len(),
                tview == name@.take(t_end as int),
                forall|i: int| pos <= i < j ==> name@.take(t_end as int)[i] != DOT,
            decreases t_end - j,
        {
            j = j + 1;
        }
        proof {
            lemma_find_dot_char(cur);
            assert(forall|i: int| 0 <= i < j - pos ==> cur[i] != DOT);
            if j < t_end {
                assert(cur[j - pos] == DOT);
                assert(find_dot(cur) == j - pos) by {
                    if find_dot(cur) < 0 {
                        assert(cur[j - pos] != DOT);
                    } else if find_dot(cur) < j - pos {
                        assert(cur[find_dot(cur)] != DOT);
                    } else if find_dot(cur) > j - pos {
                        assert(cur[j - pos] != DOT);
                    }
                }
                assert(split_dot(cur) == seq![cur.take(j - pos)] + split_dot(
                    cur.skip(j - pos + 1),
                ));
            } else {
                assert(find_dot(cur) < 0) by {
                    if find_dot(cur) >= 0 {
                        assert(cur[find_dot(cur)] == DOT);
                    }
                }
                assert(split_dot(cur) == seq![cur]);
            }
            assert(whole.skip(k).len() > 0);
            assert(k < whole.len());
            assert(whole[k] == whole.skip(k)[0]) by {
                assert(whole.skip(k)[0] == whole[k + 0]);
            }
            if j < t_end {
                assert(whole[k] == cur.take(j - pos));
            } else {
                assert(whole[k] == cur);
            }
            assert(whole[k] =~= name@.take(t_end as int).subrange(pos as int, j as int));
        }
        let seg_len = j - pos;
        if seg_len == 0 {
            proof {
                assert(whole[k].len() == 0);
                assert(!labels_sized(whole));
            }
            return Err(DnsError::new("empty label"));
        }
        if seg_len > 63 {
            proof {
                assert(whole[k].len() > 63);
                assert(!labels_sized(whole));
            }
            return Err(DnsError::new("label too long"));
        }
        let mut step: usize = seg_len;
        if pos > 0 {
            step = step + 1;
        }
        proof {
            lemma_name_len_push(whole.take(k), whole[k]);
            assert(whole.take(k).push(whole[k]) =~~= whole.take(k + 1));
            assert(nlen + step == name_len(whole.take(k + 1)));
            lemma_name_len_prefix(whole.take(k + 1), whole.skip(k + 1));
            assert(whole.take(k + 1) + whole.skip(k + 1) =~~= whole);
        }
        if nlen + step > 253 {
            proof {
                assert(name_len(whole) > 253);
            }
            return Err(DnsError::new("name too long"));
        }
        nlen = nlen + step;
        buf.push(seg_len as u8);
        let ghost buf1 = buf@;
        let mut i: usize = pos;
        while i < j
            invariant
                pos <= i <= j <= t_end <= name@.len(),
                buf@ == buf1 + name@.take(t_end as int).subrange(pos as int, i as int),
            decreases j - i,
        {
            buf.push(name[i]);
            proof {
                assert(buf@ =~= buf1 + name@.take(t_end as int).subrange(pos as int, i + 1));
            }
            i = i + 1;
        }
        proof {
            lemma_wire_body_push(whole.take(k), whole[k]);
            assert(whole[k].len() == seg_len);
            assert(buf@ =~= labels_wire_body(whole.take(k)) + seq![seg_len as u8] + whole[k]);
            assert(buf@ == labels_wire_body(whole.take(k + 1)));
        }
        proof {
            k = k + 1int;
        }
        if j >= t_end {
            proof {
                assert(whole.skip(k) =~~= Seq::<Seq<u8>>::empty());
                assert(whole.take(k) =~~= whole);
                assert(labels_sized(whole));
                assert(name_len(whole) <= 253);
            }
            buf.push(0);
            proof {
                assert(buf@ =~= labels_wire_body(whole) + seq![0u8]);
                assert(buf@ == labels_wire(whole));
            }
            out.append(&mut buf);
            return Ok(());
        }
        proof {
            assert(whole.skip(k) =~~= whole.skip(k - 1).drop_first());
            assert(whole.skip(k - 1).drop_first() =~~= split_dot(cur).drop_first());
            assert(split_dot(cur).drop_first() =~~= split_dot(cur.skip(j - pos + 1)));
            assert(cur.skip(j - pos + 1) =~= tview.subrange(j + 1, t_end as int));
        }
        pos = j + 1;
    }
}

/// Parsing the wire form of sized labels gives those labels back.
pub proof fn lemma_parse_of_wire(packet: Seq<u8>, o: int, labels: Seq<Seq<u8>>)
    requires
        labels_sized(labels),
        0 <= o,
        o + labels_wire(labels).len() <= packet.len(),
        packet.subrange(o, o + labels_wire(labels).len()) == labels_wire(labels),
    ensures
        spec_parse_plain_labels(packet, o) == Some((labels, o + labels_wire(labels).len())),
    decreases labels.len(),
{
    let w = labels_wire(labels);
    if labels.len() == 0 {
        assert(labels_wire_body(labels) == Seq::<u8>::empty());
        assert(w =~= seq![0u8]);
        assert(packet[o] == w[0]);
        assert(packet[o] == 0);
    } else {
        let lab = labels[0];
        let rest = labels.drop_first();
        let wrest = labels_wire(rest);
        let b = lab.len() as int;
        assert(labels_wire_body(labels) == seq![lab.len() as u8] + lab + labels_wire_body(rest));
        assert(w =~= seq![lab.len() as u8] + lab + wrest);
        assert(packet[o] == w[0]);
        assert(packet[o] == lab.len() as u8);
        assert(1 <= b <= 63);
        assert(packet[o] != 0 && packet[o] < 64);
        assert(o + 1 + b <= packet.len()) by {
            assert(w.len() == 1 + b + wrest.len());
            assert(wrest.len() >= 1) by {
                assert(wrest =~= labels_wire_body(rest) + seq![0u8]);
            }
        }
        assert(packet.subrange(o + 1, o + 1 + b) =~= lab) by {
            assert forall|i: int| 0 <= i < b implies packet.subrange(o + 1, o + 1 + b)[i] == lab[i]
                by {
                assert(packet[o + 1 + i] == packet.subrange(o, o + w.len())[1 + i]);
                assert(w[1 + i] == lab[i]);
            }
        }
        assert(packet.subrange(o + 1 + b, o + 1 + b + wrest.len()) =~= wrest) by {
            assert forall|i: int| 0 <= i < wrest.len() implies packet.subrange(
                o + 1 + b,
                o + 1 + b + wrest.len(),
            )[i] == wrest[i] by {
                assert(packet[o + 1 + b + i] == packet.subrange(o, o + w.len())[1 + b + i]);
                assert(w[1 + b + i] == wrest[i]);
            }
        }
        lemma_parse_of_wire(packet, o + 1 + b, rest);
        assert(spec_parse_plain_labels(packet, o + 1 + b) == Some(
            (rest, o + 1 + b + wrest.len()),
        ));
        assert(seq![packet.subrange(o + 1, o + 1 + packet[o])] + rest =~~= labels);
        assert(o + 1 + b + wrest.len() == o + w.len());
    }
}

/// What stripping one apex from a query name yields.
pub open spec fn spec_extract_subdomain(qname: Seq<u8>, domain: Seq<u8>) -> Result<Seq<u8>, Rcode> {
    let d = trim_dots(domain);
    if d.len() == 0 {
        Err(Rcode::NameError)
    } else {
        let suffix = seq![DOT] + d + seq![DOT];
        if !ends_with(lower_seq(qname), lower_seq(suffix)) {
            Err(Rcode::NameError)
        } else if qname.len() <= d.len() + 2 {
            Err(Rcode::NameError)
        } else {
            Ok(qname.take(qname.len() - d.len() - 2))
        }
    }
}

/// Strips `.domain.` off the end of `qname`, case-insensitively.
pub fn extract_subdomain(qname: &[u8], domain: &[u8]) -> (r: Result<Vec<u8>, Rcode>)
    ensures
        r matches Ok(v) ==> spec_extract_subdomain(qname@, domain@) matches Ok(sv) && v@ == sv,
        r matches Err(c) ==> spec_extract_subdomain(qname@, domain@) matches Err(sc) && c == sc,
{
    let d_end = trim_dots_len(domain);
    if d_end == 0 {
        return Err(Rcode::NameError);
    }
    let mut suffix: Vec<u8> = Vec::new();
    suffix.push(DOT);
    let mut i: usize = 0;
    while i < d_end
        invariant
            i <= d_end <= domain@.len(),
            suffix@ == seq![DOT] + domain@.take(d_end as int).take(i as int),
        decreases d_end - i,
    {
        suffix.push(domain[i]);
        proof {
            assert(suffix@ =~= seq![DOT] + domain@.take(d_end as int).take(i + 1));
        }
        i = i + 1;
    }
    suffix.push(DOT);
    proof {
        assert(domain@.take(d_end as int).take(d_end as int) =~= trim_dots(domain@));
        assert(suffix@ =~= seq![DOT] + trim_dots(domain@) + seq![DOT]);
    }
    let ql = to_lower_bytes(qname);
    let sl = to_lower_bytes(suffix.as_slice());
    proof {
        assert(ql@.take(ql@.len() as int) =~= ql@);
        assert(sl@.take(sl@.len() as int) =~= sl@);
    }
    if !range_ends_with(ql.as_slice(), ql.len(), sl.as_slice(), sl.len()) {
        return Err(Rcode::NameError);
    }
    if qname.len() <= d_end + 2 {
        return Err(Rcode::NameError);
    }
    let data_len = qname.len() - d_end - 2;
    proof {
        assert(data_len > 0);
    }
    let sub = copy_range(qname, 0, data_len);
    proof {
        assert(sub@ =~= qname@.take(data_len as int));
    }
    Ok(sub)
}

/// Whether a lowered, trimmed apex matches a lowered, trimmed query name:
/// the whole name, or a suffix that starts at a label boundary.
pub open spec fn apex_match(ql: Seq<u8>, d: Seq<u8>) -> bool {
    ql == d || (ql.len() > d.len() && ends_with(ql, d) && ql[ql.len() - d.len() - 1] == DOT)
}

/// The apex the first `n` configured domains select: its index, trimmed
/// length, and whether it equals the whole name.
pub open spec fn spec_best_apex(ql: Seq<u8>, domains: Seq<Seq<u8>>, n: int) -> Option<
    (int, int, bool),
>
    decreases n,
{
    if n <= 0 {
        None
    } else {
        let prev = spec_best_apex(ql, domains, n - 1);
        let dt = trim_dots(domains[n - 1]);
        if dt.len() == 0 || !apex_match(ql, lower_seq(dt)) {
            prev
        } else {
            let cand = (n - 1, dt.len() as int, ql == lower_seq(dt));
            match prev {
                None => Some(cand),
                Some(best) => if dt.len() > best.1 {
                    Some(cand)
                } else {
                    prev
                },
            }
        }
    }
}

/// What stripping the best apex of a set from a query name yields.
pub open spec fn spec_extract_multi(qname: Seq<u8>, domains: Seq<Seq<u8>>) -> Result<
    Seq<u8>,
    Rcode,
> {
    let qt = trim_dots(qname);
    if qt.len() == 0 {
        Err(Rcode::NameError)
    } else {
        match spec_best_apex(lower_seq(qt), domains, domains.len() as int) {
            None => Err(Rcode::NameError),
            Some((i, l, exact)) => if exact {
                Err(Rcode::NameError)
            } else {
                spec_extract_subdomain(qname, trim_dots(domains[i]))
            },
        }
    }
}

/// Strips the longest configured apex off `qname`; an exact apex or no
/// match is a name error.
pub fn extract_subdomain_multi(qname: &[u8], domains: &Vec<Vec<u8>>) -> (r: Result<Vec<u8>, Rcode>)
    ensures
        r matches Ok(v) ==> spec_extract_multi(qname@, domains.deep_view()) matches Ok(sv) && v@
            == sv,
        r matches Err(c) ==> spec_extract_multi(qname@, domains.deep_view()) matches Err(sc) && c
            == sc,
{
    let ghost dv = domains.deep_view();
    let qt_end = trim_dots_len(qname);
    if qt_end == 0 {
        return Err(Rcode::NameError);
    }
    let q_trim = copy_range(qname, 0, qt_end);
    let ql = to_lower_bytes(q_trim.as_slice());
    proof {
        assert(q_trim@ =~= trim_dots(qname@));
    }
    let mut best: usize = 0;
    let mut has_best: bool = false;
    let mut best_len: usize = 0;
    let mut best_exact: bool = false;
    let mut i: usize = 0;
    while i < domains.len()
        invariant
            i <= domains@.len(),
            dv == domains.deep_view(),
            dv.len() == domains@.len(),
            ql@ == lower_seq(trim_dots(qname@)),
            !has_best ==> spec_best_apex(ql@, dv, i as int) is None && best_len == 0,
            has_best ==> spec_best_apex(ql@, dv, i as int) == Some(
                (best as int, best_len as int, best_exact),
            ) && best < i,
        decreases domains@.len() - i,
    {
        let dom = &domains[i];
        proof {
            assert(dv[i as int] == domains@[i as int]@);
        }
        let dt_end = trim_dots_len(dom.as_slice());
        if dt_end == 0 {
            proof {
                assert(trim_dots(dv[i as int]).len() == 0);
                assert(spec_best_apex(ql@, dv, i + 1) == spec_best_apex(ql@, dv, i as int));
            }
            i = i + 1;
            continue ;
        }
        let d_trim = copy_range(dom.as_slice(), 0, dt_end);
        let dl = to_lower_bytes(d_trim.as_slice());
        proof {
            assert(d_trim@ =~= trim_dots(dv[i as int]));
        }
        let is_exact = crate::bytestr::bytes_eq(ql.as_slice(), dl.as_slice());
        let mut is_suffix = false;
        if !is_exact && ql.len() > dl.len() {
            proof {
                assert(ql@.take(ql@.len() as int) =~= ql@);
                assert(dl@.take(dl@.len() as int) =~= dl@);
            }
            if range_ends_with(ql.as_slice(), ql.len(), dl.as_slice(), dl.len()) {
                if ql[ql.len() - dl.len() - 1] == DOT {
                    is_suffix = true;
                }
            }
        }
        proof {
            assert((is_exact || is_suffix) == apex_match(ql@, dl@));
        }
        proof {
            let dt = trim_dots(dv[i as int]);
            assert(dl@ == lower_seq(dt));
            assert(dt.len() == dt_end);
            if !apex_match(ql@, dl@) {
                assert(spec_best_apex(ql@, dv, i + 1) == spec_best_apex(ql@, dv, i as int));
            }
        }
        if is_exact || is_suffix {
            if dt_end > best_len {
                best = i;
                best_len = dt_end;
                best_exact = is_exact;
                has_best = true;
            }
        }
        i = i + 1;
    }
    proof {
        assert(dv.len() == domains@.len());
    }
    if !has_best {
        return Err(Rcode::NameError);
    }
    if best_exact {
        return Err(Rcode::NameError);
    }
    let best_dom = &domains[best];
    proof {
        assert(dv[best as int] == domains@[best as int]@);
    }
    let bd_end = trim_dots_len(best_dom.as_slice());
    let bd = copy_range(best_dom.as_slice(), 0, bd_end);
    proof {
        assert(bd@ =~= trim_dots(dv[best as int]));
        assert(trim_dots(trim_dots(dv[best as int])) == trim_dots(dv[best as int])) by {
            crate::bytestr::lemma_trim_dots_no_trailing(dv[best as int]);
        }
    }
    extract_subdomain(qname, bd.as_slice())
}

/// What the apex scan selects, characterized: a selected apex really
/// matches, its recorded length is its trimmed length, and nothing earlier
/// in the list matches with a greater length; no selection means no match.
pub proof fn lemma_best_apex_characterized(ql: Seq<u8>, domains: Seq<Seq<u8>>, n: int)
    requires
        n <= domains.len(),
    ensures
        spec_best_apex(ql, domains, n) matches Some(b) ==> 0 <= b.0 < n && trim_dots(
            domains[b.0],
        ).len() == b.1 && b.1 >= 1 && apex_match(ql, lower_seq(trim_dots(domains[b.0]))) && b.2 == (
        ql == lower_seq(trim_dots(domains[b.0]))),
        spec_best_apex(ql, domains, n) matches Some(b) ==> forall|j: int|
            0 <= j < n && trim_dots(domains[j]).len() >= 1 && apex_match(
                ql,
                lower_seq(trim_dots(#[trigger] domains[j])),
            ) ==> trim_dots(domains[j]).len() <= b.1,
        spec_best_apex(ql, domains, n) is None ==> forall|j: int|
            0 <= j < n ==> !(trim_dots(#[trigger] domains[j]).len() >= 1 && apex_match(
                ql,
                lower_seq(trim_dots(domains[j])),
            )),
    decreases n,
{
    if n > 0 {
        lemma_best_apex_characterized(ql, domains, n - 1);
    }
}

/// The longest matching apex wins: any configured apex that matches the
/// query name is no longer than the selected one.
pub proof fn lemma_longest_apex_selected(qname: Seq<u8>, domains: Seq<Seq<u8>>, j: int)
    requires
        0 <= j < domains.len(),
        trim_dots(domains[j]).len() >= 1,
        apex_match(lower_seq(trim_dots(qname)), lower_seq(trim_dots(domains[j]))),
    ensures
        spec_best_apex(lower_seq(trim_dots(qname)), domains, domains.len() as int) matches Some(b)
            && trim_dots(domains[j]).len() <= b.1,
{
    lemma_best_apex_characterized(lower_seq(trim_dots(qname)), domains, domains.len() as int);
}

/// A query name that equals a configured apex is answered with a name
/// error, never stripped: any match is at most name-long, so the selected
/// apex is name-long and therefore exact.
pub proof fn lemma_exact_apex_rejected(qname: Seq<u8>, domains: Seq<Seq<u8>>, i: int)
    requires
        0 <= i < domains.len(),
        trim_dots(domains[i]).len() >= 1,
        lower_seq(trim_dots(qname)) == lower_seq(trim_dots(domains[i])),
        trim_dots(qname).len() > 0,
    ensures
        spec_extract_multi(qname, domains) == Err::<Seq<u8>, Rcode>(Rcode::NameError),
{
    let ql = lower_seq(trim_dots(qname));
    let nd = domains.len() as int;
    assert(apex_match(ql, lower_seq(trim_dots(domains[i]))));
    lemma_best_apex_characterized(ql, domains, nd);
    let b = spec_best_apex(ql, domains, nd)->Some_0;
    assert(spec_best_apex(ql, domains, nd) is Some);
    assert(trim_dots(domains[i]).len() <= b.1);
    assert(ql.len() == trim_dots(domains[i]).len());
    let db = lower_seq(trim_dots(domains[b.0]));
    assert(apex_match(ql, db));
    assert(db.len() == b.1);
    if ql != db {
        assert(ql.len() > db.len());
        assert(false);
    }
    assert(b.2);
}

} // verus!
