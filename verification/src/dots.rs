//! Label splitting for encoded payloads: long base32 text is cut into
//! sixty-three byte labels on the way out and joined again on the way in.

use vstd::prelude::*;
use vstd::seq_lib::*;
use crate::bytestr::DOT;
use crate::dns_name::{
    split_dot, find_dot, labels_sized, name_len, labels_text_ne, lemma_find_dot_char,
};

verus! {

/// No dot anywhere in `s`.
pub open spec fn dotless(s: Seq<u8>) -> bool {
    forall|i: int| 0 <= i < s.len() ==> s[i] != DOT
}

/// Text cut into labels of at most sixty-three bytes, joined with dots.
pub open spec fn dotify(s: Seq<u8>) -> Seq<u8>
    decreases s.len(),
{
    if s.len() <= 63 {
        s
    } else {
        s.take(63) + seq![DOT] + dotify(s.skip(63))
    }
}

/// The dots removed: what the labels spell when joined back together.
pub open spec fn undotify(s: Seq<u8>) -> Seq<u8> {
    s.filter(|c: u8| c != DOT)
}

/// Filtering changes nothing when every element passes.
proof fn lemma_filter_identity(s: Seq<u8>, pred: spec_fn(u8) -> bool)
    requires
        forall|i: int| 0 <= i < s.len() ==> pred(s[i]),
    ensures
        s.filter(pred) == s,
    decreases s.len(),
{
    reveal(Seq::filter);
    if s.len() > 0 {
        lemma_filter_identity(s.drop_last(), pred);
        assert(s.drop_last().push(s.last()) =~= s);
    }
}

/// A lone dot filters to nothing.
proof fn lemma_filter_dot(pred: spec_fn(u8) -> bool)
    requires
        !pred(DOT),
    ensures
        seq![DOT].filter(pred) == Seq::<u8>::empty(),
{
    reveal(Seq::filter);
    assert(Seq::<u8>::empty().filter(pred) == Seq::<u8>::empty());
    assert(seq![DOT].len() == 1);
    assert(seq![DOT].last() == DOT);
    assert(seq![DOT].drop_last() =~= Seq::<u8>::empty());
    assert(seq![DOT].filter(pred) == Seq::<u8>::empty().filter(pred));
}

/// Undoing the dots of dotted text gives the text back.
pub proof fn lemma_undotify_dotify(s: Seq<u8>)
    requires
        dotless(s),
    ensures
        undotify(dotify(s)) == s,
    decreases s.len(),
{
    broadcast use Seq::filter_distributes_over_add;

    let pred = |c: u8| c != DOT;
    if s.len() <= 63 {
        lemma_filter_identity(s, pred);
    } else {
        lemma_undotify_dotify(s.skip(63));
        lemma_filter_identity(s.take(63), pred);
        lemma_filter_dot(pred);
        assert(undotify(dotify(s)) =~= s.take(63) + s.skip(63));
        s.lemma_split_at(63);
        assert(s.take(63) + s.skip(63) =~= s);
    }
}

/// `find_dot` is pinned by exhibiting the first dot.
pub proof fn lemma_find_dot_unique(s: Seq<u8>, i: int)
    requires
        0 <= i < s.len(),
        s[i] == DOT,
        forall|j: int| 0 <= j < i ==> s[j] != DOT,
    ensures
        find_dot(s) == i,
{
    lemma_find_dot_char(s);
    if find_dot(s) < 0 {
        assert(s[i] != DOT);
    } else if find_dot(s) < i {
        assert(s[find_dot(s)] != DOT);
    } else if find_dot(s) > i {
        assert(s[i] != DOT);
    }
}

/// `find_dot` of dotless text finds nothing.
pub proof fn lemma_find_dot_none(s: Seq<u8>)
    requires
        dotless(s),
    ensures
        find_dot(s) < 0,
{
    lemma_find_dot_char(s);
    if find_dot(s) >= 0 {
        assert(s[find_dot(s)] == DOT);
    }
}

/// Splitting around one separating dot splits each side on its own.
pub proof fn lemma_split_dot_concat(a: Seq<u8>, b: Seq<u8>)
    ensures
        split_dot(a + seq![DOT] + b) == split_dot(a) + split_dot(b),
    decreases a.len(),
{
    let s = a + seq![DOT] + b;
    lemma_find_dot_char(a);
    if find_dot(a) < 0 {
        lemma_find_dot_unique(s, a.len() as int);
        assert(s.take(a.len() as int) =~= a);
        assert(s.skip(a.len() as int + 1) =~= b);
        assert(split_dot(s) == seq![a] + split_dot(b));
        assert(split_dot(a) == seq![a]);
    } else {
        let fd = find_dot(a);
        lemma_find_dot_unique(s, fd);
        assert(s.take(fd) =~= a.take(fd));
        assert(s.skip(fd + 1) =~= a.skip(fd + 1) + seq![DOT] + b);
        lemma_split_dot_concat(a.skip(fd + 1), b);
        assert(split_dot(s) == seq![a.take(fd)] + (split_dot(a.skip(fd + 1)) + split_dot(b)));
        assert(split_dot(a) == seq![a.take(fd)] + split_dot(a.skip(fd + 1)));
        assert(seq![a.take(fd)] + (split_dot(a.skip(fd + 1)) + split_dot(b)) =~= (seq![
            a.take(fd),
        ] + split_dot(a.skip(fd + 1))) + split_dot(b));
    }
}

/// The labels of dotted text: as many as needed, one to sixty-three bytes
/// each, and dotless.
pub proof fn lemma_split_dotify(s: Seq<u8>)
    requires
        dotless(s),
        s.len() >= 1,
    ensures
        labels_sized(split_dot(dotify(s))),
        forall|i: int| 0 <= i < split_dot(dotify(s)).len() ==> dotless(
            #[trigger] split_dot(dotify(s))[i],
        ),
    decreases s.len(),
{
    if s.len() <= 63 {
        lemma_find_dot_none(s);
        assert(split_dot(dotify(s)) == seq![s]);
    } else {
        lemma_split_dotify(s.skip(63));
        lemma_split_dot_concat(s.take(63), dotify(s.skip(63)));
        assert(dotify(s) == s.take(63) + seq![DOT] + dotify(s.skip(63)));
        lemma_find_dot_none(s.take(63));
        assert(split_dot(s.take(63)) == seq![s.take(63)]);
        let rest = split_dot(dotify(s.skip(63)));
        assert(split_dot(dotify(s)) == seq![s.take(63)] + rest);
        assert forall|i: int| 0 <= i < split_dot(dotify(s)).len() implies 1 <= #[trigger] split_dot(
            dotify(s),
        )[i].len() <= 63 by {
            if i > 0 {
                assert(split_dot(dotify(s))[i] == rest[i - 1]);
            }
        }
        assert forall|i: int| 0 <= i < split_dot(dotify(s)).len() implies dotless(
            #[trigger] split_dot(dotify(s))[i],
        ) by {
            if i > 0 {
                assert(split_dot(dotify(s))[i] == rest[i - 1]);
            }
        }
    }
}

/// When no label is empty, the text of the split is the text plus a dot.
pub proof fn lemma_text_of_split(t: Seq<u8>)
    requires
        forall|i: int| 0 <= i < split_dot(t).len() ==> #[trigger] split_dot(t)[i].len() > 0,
    ensures
        labels_text_ne(split_dot(t)) == t + seq![DOT],
        name_len(split_dot(t)) == t.len(),
    decreases t.len(),
{
    lemma_find_dot_char(t);
    if find_dot(t) < 0 {
        assert(split_dot(t) == seq![t]);
        assert(seq![t].drop_first() =~~= Seq::<Seq<u8>>::empty());
        assert(seq![t][0] == t);
        assert(labels_text_ne(seq![t]) == t + seq![DOT] + labels_text_ne(
            seq![t].drop_first(),
        ));
        assert(labels_text_ne(seq![t].drop_first()) == Seq::<u8>::empty());
        assert(t + seq![DOT] + Seq::<u8>::empty() =~= t + seq![DOT]);
        assert(name_len(seq![t]) == t.len());
    } else {
        let fd = find_dot(t);
        let head = t.take(fd);
        let rest = t.skip(fd + 1);
        assert(split_dot(t) == seq![head] + split_dot(rest));
        assert forall|i: int| 0 <= i < split_dot(rest).len() implies #[trigger] split_dot(
            rest,
        )[i].len() > 0 by {
            assert(split_dot(t)[i + 1] == split_dot(rest)[i]);
        }
        lemma_text_of_split(rest);
        assert((seq![head] + split_dot(rest)).drop_first() =~~= split_dot(rest));
        assert(labels_text_ne(split_dot(t)) == head + seq![DOT] + labels_text_ne(
            split_dot(rest),
        ));
        assert(head + seq![DOT] + (rest + seq![DOT]) =~= t + seq![DOT]);
        assert(split_dot(rest).len() > 0) by {
            if find_dot(rest) < 0 {
            }
        }
        assert(split_dot(t).len() > 1);
        assert(name_len(split_dot(t)) == head.len() + 1 + name_len(split_dot(rest)));
    }
}

/// Dotted text is no shorter than the input and gains at most three dots
/// within the reach of a DNS name.
pub proof fn lemma_dotify_len_bound(s: Seq<u8>)
    ensures
        dotify(s).len() >= s.len(),
        s.len() <= 63 ==> dotify(s).len() == s.len(),
        s.len() <= 126 ==> dotify(s).len() <= s.len() + 1,
        s.len() <= 189 ==> dotify(s).len() <= s.len() + 2,
        s.len() <= 252 ==> dotify(s).len() <= s.len() + 3,
    decreases s.len(),
{
    if s.len() > 63 {
        lemma_dotify_len_bound(s.skip(63));
    }
}

/// Cuts text into labels of at most sixty-three bytes, joined with dots.
pub fn dotify_bytes(s: &[u8]) -> (r: Vec<u8>)
    ensures
        r@ == dotify(s@),
{
    let mut out: Vec<u8> = Vec::new();
    let mut i: usize = 0;
    proof {
        assert(s@.skip(0) =~= s@);
    }
    while i < s.len()
        invariant
            i <= s@.len(),
            i < s@.len() ==> dotify(s@) == out@ + dotify(s@.skip(i as int)),
            i == s@.len() && i > 0 ==> dotify(s@) == out@,
            i == 0 ==> out@.len() == 0,
        decreases s@.len() - i,
    {
        let ghost out0 = out@;
        let n = s.len();
        let rem = n - i;
        let g: usize = if rem > 63 {
            63
        } else {
            rem
        };
        let end = i + g;
        let mut j: usize = i;
        while j < end
            invariant
                i <= j <= end,
                end == i + g,
                end <= s@.len(),
                out@ == out0 + s@.skip(i as int).take(g as int).take(j - i),
            decreases end - j,
        {
            out.push(s[j]);
            proof {
                assert(out@ =~= out0 + s@.skip(i as int).take(g as int).take(j + 1 - i));
            }
            j = j + 1;
        }
        proof {
            assert(s@.skip(i as int).take(g as int).take(g as int) =~= s@.skip(i as int).take(
                g as int,
            ));
        }
        if rem > 63 {
            out.push(DOT);
            proof {
                let sfx = s@.skip(i as int);
                assert(dotify(sfx) == sfx.take(63) + seq![DOT] + dotify(sfx.skip(63)));
                assert(out@ =~= out0 + sfx.take(63) + seq![DOT]);
                assert(sfx.skip(63) =~= s@.skip(i + 63));
                assert(dotify(s@) =~= out@ + dotify(s@.skip(i + 63)));
            }
        } else {
            proof {
                let sfx = s@.skip(i as int);
                assert(sfx.take(g as int) =~= sfx);
                assert(dotify(sfx) == sfx);
                assert(dotify(s@) =~= out@);
            }
        }
        i = i + g;
    }
    proof {
        if s@.len() == 0 {
            assert(dotify(s@) =~= Seq::<u8>::empty());
        }
    }
    out
}

/// Removes every dot, joining the labels back into one text.
pub fn undotify_bytes(s: &[u8]) -> (r: Vec<u8>)
    ensures
        r@ == undotify(s@),
{
    let pred = |c: u8| c != DOT;
    let mut out: Vec<u8> = Vec::new();
    let mut i: usize = 0;
    proof {
        reveal(Seq::filter);
        assert(s@.take(0) =~= Seq::<u8>::empty());
    }
    while i < s.len()
        invariant
            i <= s@.len(),
            out@ == s@.take(i as int).filter(|c: u8| c != DOT),
        decreases s@.len() - i,
    {
        let b = s[i];
        proof {
            reveal(Seq::filter);
            assert(s@.take(i + 1).drop_last() =~= s@.take(i as int));
            assert(s@.take(i + 1).last() == s@[i as int]);
        }
        if b != DOT {
            out.push(b);
        }
        i = i + 1;
    }
    proof {
        assert(s@.take(s@.len() as int) =~= s@);
    }
    out
}

} // verus!
