//! Adjacent token pairs: how often a pair occurs in a token sequence, and the
//! greedy left-to-right replacement of a pair by a new token.

use vstd::prelude::*;

verus! {

/// Two adjacent token ids, left then right.
#[derive(Clone, Copy, PartialEq, Eq, Structural, Hash, Debug, PartialOrd, Ord)]
pub struct Pair {
    pub l: u32,
    pub r: u32,
}

/// Number of positions `i` with `s[i] == l` and `s[i + 1] == r`; overlapping
/// occurrences each count.
pub open spec fn pair_count(s: Seq<u32>, l: u32, r: u32) -> nat
    decreases s.len(),
{
    if s.len() < 2 {
        0
    } else {
        (if s[0] == l && s[1] == r { 1nat } else { 0nat }) + pair_count(s.drop_first(), l, r)
    }
}

/// `s` with every occurrence of `l` followed by `r` replaced by `id`, scanning
/// from the left: an occurrence that overlaps one already replaced is left alone.
pub open spec fn merge_seq(s: Seq<u32>, l: u32, r: u32, id: u32) -> Seq<u32>
    decreases s.len(),
{
    if s.len() == 0 {
        s
    } else if s.len() >= 2 && s[0] == l && s[1] == r {
        seq![id] + merge_seq(s.subrange(2, s.len() as int), l, r, id)
    } else {
        seq![s[0]] + merge_seq(s.drop_first(), l, r, id)
    }
}


/// 1 when `x` is followed by `y` and that is the pair `(l, r)`, else 0.
pub open spec fn bridge(x: u32, y: u32, l: u32, r: u32) -> nat {
    if x == l && y == r { 1 } else { 0 }
}

/// Whether `l` followed by `r` starts at index `i` of `s`.
pub open spec fn occurs_at(s: Seq<u32>, l: u32, r: u32, i: int) -> bool {
    0 <= i && i + 1 < s.len() && s[i] == l && s[i + 1] == r
}

/// Counting pairs in a concatenation: those of each part, plus the one that
/// may straddle the seam.
pub proof fn lemma_count_concat(s: Seq<u32>, t: Seq<u32>, l: u32, r: u32)
    ensures
        pair_count(s + t, l, r) == pair_count(s, l, r) + pair_count(t, l, r) + (if s.len() > 0
            && t.len() > 0 { bridge(s.last(), t[0], l, r) } else { 0 }),
    decreases s.len(),
{
    if s.len() == 0 {
        assert(s + t =~= t);
    } else {
        lemma_count_concat(s.drop_first(), t, l, r);
        assert((s + t).drop_first() =~= s.drop_first() + t);
        if s.len() == 1 {
            assert(s.drop_first() + t =~= t);
        }
    }
}

/// Counting pairs before and after two adjacent tokens `a`, `b` at the seam of
/// `p` and `q` are replaced by the single token `x`.
pub proof fn lemma_count_replace(p: Seq<u32>, q: Seq<u32>, a: u32, b: u32, x: u32, l: u32, r: u32)
    ensures
        pair_count(p + seq![a, b] + q, l, r) == pair_count(p, l, r) + pair_count(q, l, r) + (if p.len()
            > 0 { bridge(p.last(), a, l, r) } else { 0 }) + bridge(a, b, l, r) + (if q.len() > 0 {
            bridge(b, q[0], l, r)
        } else {
            0
        }),
        pair_count(p + seq![x] + q, l, r) == pair_count(p, l, r) + pair_count(q, l, r) + (if p.len()
            > 0 { bridge(p.last(), x, l, r) } else { 0 }) + (if q.len() > 0 {
            bridge(x, q[0], l, r)
        } else {
            0
        }),
{
    let ab = seq![a, b];
    let xs = seq![x];
    lemma_count_concat(ab, q, l, r);
    lemma_count_concat(p, ab + q, l, r);
    lemma_count_concat(xs, q, l, r);
    lemma_count_concat(p, xs + q, l, r);
    assert(p + ab + q =~= p + (ab + q));
    assert(p + xs + q =~= p + (xs + q));
    assert(ab.drop_first() =~= seq![b]);
    assert(pair_count(seq![b], l, r) == 0);
    assert(pair_count(xs, l, r) == 0);
}

/// A pair that occurs at some index is counted at least once.
pub proof fn lemma_count_positive(s: Seq<u32>, l: u32, r: u32, i: int)
    requires
        occurs_at(s, l, r, i),
    ensures
        pair_count(s, l, r) >= 1,
    decreases s.len(),
{
    if i > 0 {
        lemma_count_positive(s.drop_first(), l, r, i - 1);
    }
}

/// A positive count has an index where the pair occurs.
pub proof fn lemma_count_witness(s: Seq<u32>, l: u32, r: u32)
    requires
        pair_count(s, l, r) >= 1,
    ensures
        exists|i: int| occurs_at(s, l, r, i),
    decreases s.len(),
{
    if !(s[0] == l && s[1] == r) {
        lemma_count_witness(s.drop_first(), l, r);
        let i = choose|i: int| occurs_at(s.drop_first(), l, r, i);
        assert(occurs_at(s, l, r, i + 1));
    } else {
        assert(occurs_at(s, l, r, 0));
    }
}

/// There are fewer pairs than tokens.
pub proof fn lemma_count_bound(s: Seq<u32>, l: u32, r: u32)
    ensures
        pair_count(s, l, r) + 1 <= s.len() || s.len() == 0,
    decreases s.len(),
{
    if s.len() >= 2 {
        lemma_count_bound(s.drop_first(), l, r);
    }
}

/// Where the pair does not start anywhere before index `i`, merging leaves the
/// first `i` tokens as they are.
pub proof fn lemma_merge_untouched_prefix(s: Seq<u32>, l: u32, r: u32, x: u32, i: int)
    requires
        0 <= i <= s.len(),
        forall|j: int| 0 <= j < i ==> !occurs_at(s, l, r, j),
    ensures
        merge_seq(s, l, r, x) == s.subrange(0, i) + merge_seq(s.subrange(i, s.len() as int), l, r, x),
    decreases i,
{
    if i == 0 {
        assert(s.subrange(0, 0) + s.subrange(0, s.len() as int) =~= s);
        assert(s.subrange(0, s.len() as int) =~= s);
    } else {
        assert(!occurs_at(s, l, r, 0));
        let t = s.drop_first();
        assert forall|j: int| 0 <= j < i - 1 implies !occurs_at(t, l, r, j) by {
            assert(!occurs_at(s, l, r, j + 1));
        }
        lemma_merge_untouched_prefix(t, l, r, x, i - 1);
        assert(t.subrange(i - 1, t.len() as int) =~= s.subrange(i, s.len() as int));
        assert(seq![s[0]] + t.subrange(0, i - 1) =~= s.subrange(0, i));
    }
}

/// Merging a sequence that starts with the pair.
pub proof fn lemma_merge_at_front(s: Seq<u32>, l: u32, r: u32, x: u32)
    requires
        occurs_at(s, l, r, 0),
    ensures
        merge_seq(s, l, r, x) == seq![x] + merge_seq(s.subrange(2, s.len() as int), l, r, x),
{
}

/// The first token of a merged sequence is the first token of the input or the new token.
pub proof fn lemma_merge_first(s: Seq<u32>, l: u32, r: u32, x: u32)
    requires
        s.len() > 0,
    ensures
        merge_seq(s, l, r, x).len() > 0,
        merge_seq(s, l, r, x)[0] == s[0] || merge_seq(s, l, r, x)[0] == x,
{
}

/// Once merged with a token that is neither half of the pair, the pair is gone.
pub proof fn lemma_merge_removes_pair(s: Seq<u32>, l: u32, r: u32, x: u32)
    requires
        x != l,
        x != r,
    ensures
        pair_count(merge_seq(s, l, r, x), l, r) == 0,
    decreases s.len(),
{
    if s.len() == 0 {
    } else if s.len() >= 2 && s[0] == l && s[1] == r {
        let rest = s.subrange(2, s.len() as int);
        lemma_merge_removes_pair(rest, l, r, x);
        lemma_count_concat(seq![x], merge_seq(rest, l, r, x), l, r);
    } else {
        let rest = s.drop_first();
        lemma_merge_removes_pair(rest, l, r, x);
        lemma_count_concat(seq![s[0]], merge_seq(rest, l, r, x), l, r);
        if rest.len() > 0 {
            lemma_merge_first(rest, l, r, x);
        }
    }
}

/// Merging never lengthens a sequence, and shortens it where the pair occurs.
pub proof fn lemma_merge_len(s: Seq<u32>, l: u32, r: u32, x: u32)
    ensures
        merge_seq(s, l, r, x).len() <= s.len(),
        pair_count(s, l, r) > 0 ==> merge_seq(s, l, r, x).len() < s.len(),
    decreases s.len(),
{
    if s.len() == 0 {
    } else if s.len() >= 2 && s[0] == l && s[1] == r {
        lemma_merge_len(s.subrange(2, s.len() as int), l, r, x);
    } else {
        lemma_merge_len(s.drop_first(), l, r, x);
    }
}

/// Merging keeps every token below a bound that the new token is below too.
pub proof fn lemma_merge_bound(s: Seq<u32>, l: u32, r: u32, x: u32, bound: int)
    requires
        x < bound,
        forall|i: int| 0 <= i < s.len() ==> s[i] < bound,
    ensures
        forall|i: int| 0 <= i < merge_seq(s, l, r, x).len() ==> merge_seq(s, l, r, x)[i] < bound,
    decreases s.len(),
{
    if s.len() == 0 {
    } else {
        let rest = if s.len() >= 2 && s[0] == l && s[1] == r {
            s.subrange(2, s.len() as int)
        } else {
            s.drop_first()
        };
        lemma_merge_bound(rest, l, r, x, bound);
        let m = merge_seq(s, l, r, x);
        let mr = merge_seq(rest, l, r, x);
        assert forall|i: int| 0 <= i < m.len() implies m[i] < bound by {
            if i > 0 {
                assert(m[i] == mr[i - 1]);
            }
        }
    }
}

/// Every token of a merged sequence satisfies whatever every token of the
/// input and the new token satisfy.
pub proof fn lemma_merge_tokens(s: Seq<u32>, l: u32, r: u32, x: u32, p: spec_fn(u32) -> bool)
    requires
        p(x),
        forall|i: int| 0 <= i < s.len() ==> p(#[trigger] s[i]),
    ensures
        forall|i: int| 0 <= i < merge_seq(s, l, r, x).len() ==> p(#[trigger] merge_seq(s, l, r, x)[i]),
    decreases s.len(),
{
    if s.len() > 0 {
        let rest = if s.len() >= 2 && s[0] == l && s[1] == r {
            s.subrange(2, s.len() as int)
        } else {
            s.drop_first()
        };
        assert forall|i: int| 0 <= i < rest.len() implies p(#[trigger] rest[i]) by {
            if s.len() >= 2 && s[0] == l && s[1] == r {
                assert(rest[i] == s[i + 2]);
            } else {
                assert(rest[i] == s[i + 1]);
            }
        }
        lemma_merge_tokens(rest, l, r, x, p);
        let m = merge_seq(s, l, r, x);
        let mr = merge_seq(rest, l, r, x);
        assert forall|i: int| 0 <= i < m.len() implies p(#[trigger] m[i]) by {
            if i > 0 {
                assert(m[i] == mr[i - 1]);
            } else {
                assert(p(s[0]));
            }
        }
    }
}

/// Replaces, from left to right, each occurrence of `pair` in `tokens` by `new_id`.
pub fn merge_pass(tokens: &[u32], pair: Pair, new_id: u32) -> (result: Vec<u32>)
    ensures
        result@ == merge_seq(tokens@, pair.l, pair.r, new_id),
{
    let mut result: Vec<u32> = Vec::with_capacity(tokens.len());
    let mut i: usize = 0;
    let ghost t = tokens@;
    assert(t.subrange(0, t.len() as int) =~= t);
    while i < tokens.len()
        invariant
            t == tokens@,
            i <= t.len(),
            merge_seq(t, pair.l, pair.r, new_id) == result@ + merge_seq(
                t.subrange(i as int, t.len() as int),
                pair.l,
                pair.r,
                new_id,
            ),
        decreases t.len() - i,
    {
        let ghost rest = t.subrange(i as int, t.len() as int);
        if i + 1 < tokens.len() && tokens[i] == pair.l && tokens[i + 1] == pair.r {
            assert(rest.subrange(2, rest.len() as int) =~= t.subrange(i + 2, t.len() as int));
            result.push(new_id);
            i += 2;
        } else {
            assert(rest.drop_first() =~= t.subrange(i + 1, t.len() as int));
            result.push(tokens[i]);
            i += 1;
        }
        assert(result@ + merge_seq(t.subrange(i as int, t.len() as int), pair.l, pair.r, new_id)
            =~= merge_seq(t, pair.l, pair.r, new_id));
    }
    assert(t.subrange(i as int, t.len() as int) =~= Seq::<u32>::empty());
    assert(result@ =~= result@ + Seq::<u32>::empty());
    result
}

} // verus!
