//! One round of training, seen on sequences: the chain is the part already
//! merged followed by the untouched rest of the round's starting sequence.

use vstd::prelude::*;

use crate::chain::{in_chain, increasing};
use crate::pair::{merge_seq, occurs_at};

verus! {

/// Whether the positions are in increasing order (repeats allowed).
pub open spec fn sorted(v: Seq<usize>) -> bool {
    forall|i: int, j: int| 0 <= i <= j < v.len() ==> v[i] <= v[j]
}

/// During a round that merges `a`, `b` into `x`: the chain is the merged part
/// `d`, at positions `idx_d`, followed by the round's starting sequence `s0`
/// from index `u` on, and merging the whole of `s0` gives `d` followed by the
/// merge of that rest. The pair does not start inside `d`.
pub open spec fn round_split(
    s0: Seq<u32>,
    idx0: Seq<usize>,
    s: Seq<u32>,
    idx: Seq<usize>,
    d: Seq<u32>,
    idx_d: Seq<usize>,
    u: int,
    a: u32,
    b: u32,
    x: u32,
) -> bool {
    &&& 0 <= u <= s0.len()
    &&& idx0.len() == s0.len()
    &&& d.len() == idx_d.len()
    &&& idx == idx_d + idx0.subrange(u, s0.len() as int)
    &&& s == d + s0.subrange(u, s0.len() as int)
    &&& merge_seq(s0, a, b, x) == d + merge_seq(s0.subrange(u, s0.len() as int), a, b, x)
    &&& forall|k: int| 0 <= k < d.len() ==> !occurs_at(s, a, b, k)
}

/// Every place from `u` on where the pair starts in `s0` is among the
/// positions not yet visited.
pub open spec fn pending(
    s0: Seq<u32>,
    idx0: Seq<usize>,
    positions: Seq<usize>,
    j: int,
    u: int,
    a: u32,
    b: u32,
) -> bool {
    forall|i: int|
        u <= i && #[trigger] occurs_at(s0, a, b, i) ==> exists|t: int|
            j <= t < positions.len() && positions[t] == idx0[i]
}

/// A visited position that is not where the pair starts, from index `u` on,
/// leaves nothing pending behind.
pub proof fn lemma_pending_skip(
    s0: Seq<u32>,
    idx0: Seq<usize>,
    positions: Seq<usize>,
    j: int,
    u: int,
    a: u32,
    b: u32,
)
    requires
        0 <= j < positions.len(),
        pending(s0, idx0, positions, j, u, a, b),
        forall|i: int| u <= i && occurs_at(s0, a, b, i) ==> idx0[i] != positions[j],
    ensures
        pending(s0, idx0, positions, j + 1, u, a, b),
{
    assert forall|i: int| u <= i && #[trigger] occurs_at(s0, a, b, i) implies exists|t: int|
        j + 1 <= t < positions.len() && positions[t] == idx0[i] by {
        let t = choose|t: int| j <= t < positions.len() && positions[t] == idx0[i];
        assert(t != j);
    }
}

/// A live position at place `k` of the chain is where the pair starts in
/// `s0` from `u` on only if the pair starts at place `k`.
pub proof fn lemma_not_pending_at(
    s0: Seq<u32>,
    idx0: Seq<usize>,
    s: Seq<u32>,
    idx: Seq<usize>,
    d: Seq<u32>,
    idx_d: Seq<usize>,
    u: int,
    a: u32,
    b: u32,
    x: u32,
    k: int,
)
    requires
        round_split(s0, idx0, s, idx, d, idx_d, u, a, b, x),
        increasing(idx),
        0 <= k < idx.len(),
        !occurs_at(s, a, b, k),
    ensures
        forall|i: int| u <= i && occurs_at(s0, a, b, i) ==> idx0[i] != idx[k],
{
    reveal(increasing);
    assert forall|i: int| u <= i && occurs_at(s0, a, b, i) implies idx0[i] != idx[k] by {
        let k2 = d.len() + (i - u);
        assert(idx[k2] == idx0[i]);
        if k2 != k {
            if k2 < k {
                assert(idx[k2] < idx[k]);
            } else {
                assert(idx[k] < idx[k2]);
            }
        } else {
            assert(s[k] == s0[i]);
            assert(s[k + 1] == s0[i + 1]);
        }
    }
}

/// Positions still in the chain include every later place of the round's start.
pub proof fn lemma_pending_alive(
    s0: Seq<u32>,
    idx0: Seq<usize>,
    s: Seq<u32>,
    idx: Seq<usize>,
    d: Seq<u32>,
    idx_d: Seq<usize>,
    u: int,
    a: u32,
    b: u32,
    x: u32,
    i: int,
)
    requires
        round_split(s0, idx0, s, idx, d, idx_d, u, a, b, x),
        u <= i < s0.len(),
    ensures
        in_chain(idx, idx0[i] as int),
{
    assert(idx[d.len() + (i - u)] == idx0[i]);
}

/// Merging at place `k` of the chain, where the pair starts and which is the
/// position visited, moves the split past the merged pair.
pub proof fn lemma_round_split_merge(
    s0: Seq<u32>,
    idx0: Seq<usize>,
    s: Seq<u32>,
    idx: Seq<usize>,
    d: Seq<u32>,
    idx_d: Seq<usize>,
    u: int,
    a: u32,
    b: u32,
    x: u32,
    positions: Seq<usize>,
    j: int,
    k: int,
) -> (i: int)
    requires
        round_split(s0, idx0, s, idx, d, idx_d, u, a, b, x),
        pending(s0, idx0, positions, j, u, a, b),
        sorted(positions),
        increasing(idx),
        increasing(idx0),
        0 <= j < positions.len(),
        0 <= k,
        k + 1 < idx.len(),
        positions[j] == idx[k],
        occurs_at(s, a, b, k),
        x != a,
        x != b,
    ensures
        k >= d.len(),
        i == u + (k - d.len()),
        occurs_at(s0, a, b, i),
        idx0[i] == idx[k],
        round_split(
            s0,
            idx0,
            s.subrange(0, k) + seq![x] + s.subrange(k + 2, s.len() as int),
            idx.remove(k + 1),
            d + s0.subrange(u, i) + seq![x],
            idx_d + idx0.subrange(u, i) + seq![idx[k]],
            i + 2,
            a,
            b,
            x,
        ),
        pending(s0, idx0, positions, j + 1, i + 2, a, b),
{
    reveal(increasing);
    let m0 = s0.len() as int;
    assert(k >= d.len());
    let i = u + (k - d.len());
    assert(idx[k] == idx0[i]);
    assert(s[k] == s0[i]);
    assert(s[k + 1] == s0[i + 1]);
    assert(occurs_at(s0, a, b, i));
    let rest = s0.subrange(u, m0);
    // Nothing between u and i is where the pair starts: it would have been visited.
    assert forall|i2: int| 0 <= i2 < i - u implies !occurs_at(rest, a, b, i2) by {
        if occurs_at(rest, a, b, i2) {
            assert(occurs_at(s0, a, b, u + i2));
            let t = choose|t: int| j <= t < positions.len() && positions[t] == idx0[u + i2];
            assert(idx0[u + i2] < idx0[i]);
            assert(positions[j] <= positions[t]);
        }
    }
    crate::pair::lemma_merge_untouched_prefix(rest, a, b, x, i - u);
    let tail = rest.subrange(i - u, rest.len() as int);
    assert(tail =~= s0.subrange(i, m0));
    crate::pair::lemma_merge_at_front(tail, a, b, x);
    assert(tail.subrange(2, tail.len() as int) =~= s0.subrange(i + 2, m0));
    assert(rest.subrange(0, i - u) =~= s0.subrange(u, i));
    let d2 = d + s0.subrange(u, i) + seq![x];
    let idx_d2 = idx_d + idx0.subrange(u, i) + seq![idx[k]];
    let s2 = s.subrange(0, k) + seq![x] + s.subrange(k + 2, s.len() as int);
    let idx2 = idx.remove(k + 1);
    assert(merge_seq(s0, a, b, x) =~= d2 + merge_seq(s0.subrange(i + 2, m0), a, b, x));
    assert(idx2 =~= idx_d2 + idx0.subrange(i + 2, m0));
    assert(s2 =~= d2 + s0.subrange(i + 2, m0));
    assert forall|k2: int| 0 <= k2 < d2.len() implies !occurs_at(s2, a, b, k2) by {
        if k2 < k - 1 {
            assert(s2[k2] == s[k2]);
            assert(s2[k2 + 1] == s[k2 + 1]);
            if k2 >= d.len() {
                assert(!occurs_at(rest, a, b, k2 - d.len()));
                assert(s[k2] == rest[k2 - d.len()]);
                assert(s[k2 + 1] == rest[k2 - d.len() + 1]);
            } else {
                assert(!occurs_at(s, a, b, k2));
            }
        } else if k2 == k - 1 {
            assert(s2[k2 + 1] == x);
        } else {
            assert(s2[k2] == x);
        }
    }
    assert forall|i2: int| i + 2 <= i2 && #[trigger] occurs_at(s0, a, b, i2) implies exists|t: int|
        j + 1 <= t < positions.len() && positions[t] == idx0[i2] by {
        let t = choose|t: int| j <= t < positions.len() && positions[t] == idx0[i2];
        assert(idx0[i] < idx0[i2]);
        assert(t != j);
    }
    i
}

} // verus!
