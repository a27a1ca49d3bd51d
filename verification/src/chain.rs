//! The live tokens of the text as a linked list over positions, described
//! by the increasing sequence of live positions.

use vstd::prelude::*;

verus! {

/// Positions of `idx` are increasing.
#[verifier::opaque]
pub open spec fn increasing(idx: Seq<usize>) -> bool {
    forall|k1: int, k2: int| 0 <= k1 < k2 < idx.len() ==> idx[k1] < idx[k2]
}

/// The tokens of the text, linked: `nxt` and `prv` lead from each live
/// position to the next and previous live ones.
pub(crate) struct Chain {
    pub(crate) vals: Vec<u32>,
    pub(crate) nxt: Vec<usize>,
    pub(crate) prv: Vec<usize>,
    pub(crate) alive: Vec<bool>,
}

/// Whether position `p` is one of `idx`.
pub open spec fn in_chain(idx: Seq<usize>, p: int) -> bool {
    exists|k: int| 0 <= k < idx.len() && idx[k] == p
}

/// Every position of `idx` is within the text.
#[verifier::opaque]
pub open spec fn in_range(idx: Seq<usize>, n: nat) -> bool {
    forall|k: int| 0 <= k < idx.len() ==> #[trigger] idx[k] < n
}

/// The links agree with `idx`: `nxt` leads from each position to the next,
/// `prv` back to the previous; `nxt` of the last one and `prv` of position 0
/// are out of range.
#[verifier::opaque]
pub open spec fn links_ok(nxt: Seq<usize>, prv: Seq<usize>, idx: Seq<usize>, n: nat) -> bool {
    &&& forall|k: int| 0 <= k < idx.len() - 1 ==> #[trigger] nxt[idx[k] as int] == idx[k + 1]
    &&& forall|k: int| 0 < k < idx.len() ==> #[trigger] prv[idx[k] as int] == idx[k - 1]
    &&& nxt[idx.last() as int] >= n
    &&& prv[0] >= n
}

/// A position is live exactly when it is one of `idx`.
#[verifier::opaque]
pub open spec fn alive_ok(alive: Seq<bool>, idx: Seq<usize>, n: nat) -> bool {
    forall|p: int| 0 <= p < n ==> (#[trigger] alive[p] <==> in_chain(idx, p))
}

/// `idx` lists the live positions in increasing order, starting at 0, and the
/// links agree with it.
pub open spec fn chain_wf(
    vals: Seq<u32>,
    nxt: Seq<usize>,
    prv: Seq<usize>,
    alive: Seq<bool>,
    idx: Seq<usize>,
) -> bool {
    let n = vals.len();
    &&& nxt.len() == n && prv.len() == n && alive.len() == n
    &&& idx.len() >= 1 && idx[0] == 0
    &&& increasing(idx)
    &&& in_range(idx, n)
    &&& links_ok(nxt, prv, idx, n)
    &&& alive_ok(alive, idx, n)
}

/// The tokens at the live positions, in order.
pub open spec fn chain_seq(vals: Seq<u32>, idx: Seq<usize>) -> Seq<u32> {
    idx.map_values(|p: usize| vals[p as int])
}

/// A live position sits at exactly one place of `idx`.
pub proof fn lemma_chain_rank(
    vals: Seq<u32>,
    nxt: Seq<usize>,
    prv: Seq<usize>,
    alive: Seq<bool>,
    idx: Seq<usize>,
    p: int,
) -> (k: int)
    requires
        chain_wf(vals, nxt, prv, alive, idx),
        0 <= p < vals.len(),
        alive[p],
    ensures
        0 <= k < idx.len(),
        idx[k] == p,
        forall|k2: int| 0 <= k2 < idx.len() && idx[k2] == p ==> k2 == k,
{
    reveal(alive_ok);
    reveal(increasing);
    assert(in_chain(idx, p));
    let k = choose|k: int| 0 <= k < idx.len() && idx[k] == p;
    assert forall|k2: int| 0 <= k2 < idx.len() && idx[k2] == p implies k2 == k by {
        if k2 < k {
            assert(idx[k2] < idx[k]);
        } else if k2 > k {
            assert(idx[k] < idx[k2]);
        }
    }
    k
}

/// The chain after joining the tokens at places `k` and `k + 1` into `x`.
pub open spec fn merged_links(
    vals: Seq<u32>,
    nxt: Seq<usize>,
    prv: Seq<usize>,
    alive: Seq<bool>,
    idx: Seq<usize>,
    k: int,
    x: u32,
) -> (Seq<u32>, Seq<usize>, Seq<usize>, Seq<bool>, Seq<usize>) {
    let n = vals.len();
    let pos = idx[k] as int;
    let right = idx[k + 1] as int;
    let prv2 = if nxt[right] < n {
        prv.update(nxt[right] as int, pos as usize)
    } else {
        prv
    };
    (
        vals.update(pos, x),
        nxt.update(pos, nxt[right]),
        prv2,
        alive.update(right, false),
        idx.remove(k + 1),
    )
}

proof fn lemma_merge_links_next(
    vals: Seq<u32>,
    nxt: Seq<usize>,
    prv: Seq<usize>,
    alive: Seq<bool>,
    idx: Seq<usize>,
    k: int,
    x: u32,
)
    requires
        chain_wf(vals, nxt, prv, alive, idx),
        0 <= k,
        k + 1 < idx.len(),
    ensures
        ({
            let (vals2, nxt2, prv2, alive2, idx2) = merged_links(vals, nxt, prv, alive, idx, k, x);
            &&& forall|t: int|
                0 <= t < idx2.len() - 1 ==> #[trigger] nxt2[idx2[t] as int] == idx2[t + 1]
            &&& nxt2[idx2.last() as int] >= vals.len()
        }),
{
    reveal(in_range);
    reveal(increasing);
    reveal(links_ok);
    let (vals2, nxt2, prv2, alive2, idx2) = merged_links(vals, nxt, prv, alive, idx, k, x);
    assert(idx[k] < idx[k + 1]);
    assert forall|t: int| 0 <= t < idx2.len() - 1 implies #[trigger] nxt2[idx2[t] as int]
        == idx2[t + 1] by {
        if t < k {
            assert(idx[t] < idx[k]);
            assert(nxt[idx[t] as int] == idx[t + 1]);
        } else if t == k {
            assert(nxt[idx[k + 1] as int] == idx[k + 2]);
        } else {
            assert(idx[k] < idx[t + 1]);
            assert(nxt[idx[t + 1] as int] == idx[t + 2]);
        }
    }
    if k + 1 == idx.len() - 1 {
        assert(idx2.last() == idx[k]);
    } else {
        assert(idx2.last() == idx.last());
        assert(idx[k] < idx.last());
    }
}

proof fn lemma_merge_links_prev(
    vals: Seq<u32>,
    nxt: Seq<usize>,
    prv: Seq<usize>,
    alive: Seq<bool>,
    idx: Seq<usize>,
    k: int,
    x: u32,
)
    requires
        chain_wf(vals, nxt, prv, alive, idx),
        0 <= k,
        k + 1 < idx.len(),
    ensures
        ({
            let (vals2, nxt2, prv2, alive2, idx2) = merged_links(vals, nxt, prv, alive, idx, k, x);
            &&& forall|t: int| 0 < t < idx2.len() ==> #[trigger] prv2[idx2[t] as int] == idx2[t - 1]
            &&& prv2[0] >= vals.len()
            &&& k + 2 < idx.len() ==> nxt[idx[k + 1] as int] == idx[k + 2]
            &&& k + 2 >= idx.len() ==> nxt[idx[k + 1] as int] >= vals.len()
        }),
{
    reveal(in_range);
    reveal(increasing);
    reveal(links_ok);
    let (vals2, nxt2, prv2, alive2, idx2) = merged_links(vals, nxt, prv, alive, idx, k, x);
    let n = vals.len();
    if k + 2 < idx.len() {
        assert(nxt[idx[k + 1] as int] == idx[k + 2]);
        assert(0 < idx[k + 2]) by {
            assert(idx[0] < idx[k + 2]);
        }
    } else {
        assert(idx[k + 1] == idx.last());
    }
    assert forall|t: int| 0 < t < idx2.len() implies #[trigger] prv2[idx2[t] as int] == idx2[t - 1] by {
        if t < k + 1 {
            assert(prv[idx[t] as int] == idx[t - 1]);
            if k + 2 < idx.len() {
                assert(idx[t] < idx[k + 2]);
            }
        } else if t == k + 1 {
            assert(idx2[t] == idx[k + 2]);
        } else {
            assert(prv[idx[t + 1] as int] == idx[t]);
            assert(idx[k + 2] < idx[t + 1]);
        }
    }
}

proof fn lemma_merge_links_alive(
    vals: Seq<u32>,
    nxt: Seq<usize>,
    prv: Seq<usize>,
    alive: Seq<bool>,
    idx: Seq<usize>,
    k: int,
    x: u32,
)
    requires
        chain_wf(vals, nxt, prv, alive, idx),
        0 <= k,
        k + 1 < idx.len(),
    ensures
        ({
            let (vals2, nxt2, prv2, alive2, idx2) = merged_links(vals, nxt, prv, alive, idx, k, x);
            &&& forall|p: int| 0 <= p < vals.len() ==> (#[trigger] alive2[p] <==> in_chain(idx2, p))
            &&& forall|k1: int, k2: int| 0 <= k1 < k2 < idx2.len() ==> idx2[k1] < idx2[k2]
            &&& forall|t: int| 0 <= t < idx2.len() ==> #[trigger] idx2[t] < vals.len()
        }),
{
    reveal(increasing);
    reveal(alive_ok);
    reveal(in_range);
    let (vals2, nxt2, prv2, alive2, idx2) = merged_links(vals, nxt, prv, alive, idx, k, x);
    let n = vals.len();
    assert forall|p: int| 0 <= p < n implies (#[trigger] alive2[p] <==> in_chain(idx2, p)) by {
        if alive2[p] {
            assert(alive[p]);
            let kp = lemma_chain_rank(vals, nxt, prv, alive, idx, p);
            assert(kp != k + 1);
            if kp < k + 1 {
                assert(idx2[kp] == p);
            } else {
                assert(idx2[kp - 1] == p);
            }
        }
        if in_chain(idx2, p) {
            let t = choose|t: int| 0 <= t < idx2.len() && idx2[t] == p;
            if t < k + 1 {
                assert(idx[t] == p);
                assert(idx[t] < idx[k + 1]);
            } else {
                assert(idx[t + 1] == p);
                assert(idx[k + 1] < idx[t + 1]);
            }
            assert(in_chain(idx, p));
        }
    }
    assert forall|k1: int, k2: int| 0 <= k1 < k2 < idx2.len() implies idx2[k1] < idx2[k2] by {
        let a1 = if k1 < k + 1 { k1 } else { k1 + 1 };
        let a2 = if k2 < k + 1 { k2 } else { k2 + 1 };
        assert(idx2[k1] == idx[a1]);
        assert(idx2[k2] == idx[a2]);
    }
    assert forall|t: int| 0 <= t < idx2.len() implies #[trigger] idx2[t] < n by {
        if t < k + 1 {
            assert(idx2[t] == idx[t]);
        } else {
            assert(idx2[t] == idx[t + 1]);
        }
    }
}

proof fn lemma_merge_links_seq(
    vals: Seq<u32>,
    nxt: Seq<usize>,
    prv: Seq<usize>,
    alive: Seq<bool>,
    idx: Seq<usize>,
    k: int,
    x: u32,
)
    requires
        chain_wf(vals, nxt, prv, alive, idx),
        0 <= k,
        k + 1 < idx.len(),
    ensures
        ({
            let (vals2, nxt2, prv2, alive2, idx2) = merged_links(vals, nxt, prv, alive, idx, k, x);
            let s = chain_seq(vals, idx);
            chain_seq(vals2, idx2) == s.subrange(0, k) + seq![x] + s.subrange(k + 2, s.len() as int)
        }),
{
    reveal(in_range);
    reveal(increasing);
    let (vals2, nxt2, prv2, alive2, idx2) = merged_links(vals, nxt, prv, alive, idx, k, x);
    let s = chain_seq(vals, idx);
    let s2 = chain_seq(vals2, idx2);
    let expect = s.subrange(0, k) + seq![x] + s.subrange(k + 2, s.len() as int);
    assert(s2.len() == expect.len());
    assert forall|t: int| 0 <= t < s2.len() implies s2[t] == expect[t] by {
        if t < k {
            assert(idx[t] < idx[k]);
        } else if t > k {
            assert(idx[k] < idx[t + 1]);
        }
    }
    assert(s2 =~= expect);
}

/// Joining the tokens at places `k` and `k + 1` into `x` keeps the chain well
/// formed and replaces the two tokens by `x` in its sequence.
pub proof fn lemma_chain_merge(
    vals: Seq<u32>,
    nxt: Seq<usize>,
    prv: Seq<usize>,
    alive: Seq<bool>,
    idx: Seq<usize>,
    k: int,
    x: u32,
)
    requires
        chain_wf(vals, nxt, prv, alive, idx),
        0 <= k,
        k + 1 < idx.len(),
    ensures
        ({
            let (vals2, nxt2, prv2, alive2, idx2) = merged_links(vals, nxt, prv, alive, idx, k, x);
            let s = chain_seq(vals, idx);
            &&& chain_wf(vals2, nxt2, prv2, alive2, idx2)
            &&& chain_seq(vals2, idx2) == s.subrange(0, k) + seq![x] + s.subrange(k + 2, s.len() as int)
            &&& k + 2 < idx.len() ==> nxt[idx[k + 1] as int] == idx[k + 2]
            &&& k + 2 >= idx.len() ==> nxt[idx[k + 1] as int] >= vals.len()
        }),
{
    lemma_merge_links_next(vals, nxt, prv, alive, idx, k, x);
    lemma_merge_links_prev(vals, nxt, prv, alive, idx, k, x);
    lemma_merge_links_alive(vals, nxt, prv, alive, idx, k, x);
    lemma_merge_links_seq(vals, nxt, prv, alive, idx, k, x);
    reveal(increasing);
    reveal(in_range);
    reveal(links_ok);
    reveal(alive_ok);
    let (vals2, nxt2, prv2, alive2, idx2) = merged_links(vals, nxt, prv, alive, idx, k, x);
    assert(idx2[0] == 0);
}


/// What the links say about the position at place `k` of the chain.
pub proof fn lemma_chain_at(
    vals: Seq<u32>,
    nxt: Seq<usize>,
    prv: Seq<usize>,
    alive: Seq<bool>,
    idx: Seq<usize>,
    k: int,
)
    requires
        chain_wf(vals, nxt, prv, alive, idx),
        0 <= k < idx.len(),
    ensures
        idx[k] < vals.len(),
        alive[idx[k] as int],
        k + 1 < idx.len() ==> nxt[idx[k] as int] == idx[k + 1] && idx[k + 1] < vals.len() && alive[idx[k
            + 1] as int] && idx[k] < idx[k + 1],
        k + 1 == idx.len() ==> nxt[idx[k] as int] >= vals.len(),
        k > 0 ==> prv[idx[k] as int] == idx[k - 1] && idx[k - 1] < vals.len() && alive[idx[k
            - 1] as int] && idx[k - 1] < idx[k],
        k == 0 ==> prv[idx[k] as int] >= vals.len(),
{
    reveal(in_range);
    reveal(links_ok);
    reveal(alive_ok);
    reveal(increasing);
    assert(in_chain(idx, idx[k] as int));
    if k + 1 < idx.len() {
        assert(in_chain(idx, idx[k + 1] as int));
    }
    if k > 0 {
        assert(in_chain(idx, idx[k - 1] as int));
    }
}

/// Increasing positions compare as their places do.
pub proof fn lemma_increasing_le(idx: Seq<usize>, k1: int, k2: int)
    requires
        increasing(idx),
        0 <= k1 <= k2 < idx.len(),
    ensures
        idx[k1] <= idx[k2],
{
    reveal(increasing);
}

/// Every position at a place of the chain is live.
pub proof fn lemma_chain_alive(
    vals: Seq<u32>,
    nxt: Seq<usize>,
    prv: Seq<usize>,
    alive: Seq<bool>,
    idx: Seq<usize>,
    p: int,
)
    requires
        chain_wf(vals, nxt, prv, alive, idx),
        in_chain(idx, p),
    ensures
        0 <= p < vals.len(),
        alive[p],
{
    reveal(alive_ok);
    reveal(in_range);
    let k = choose|k: int| 0 <= k < idx.len() && idx[k] == p;
    assert(idx[k] < vals.len());
}

/// The chain has no more places than the text has positions.
pub proof fn lemma_chain_len(
    vals: Seq<u32>,
    nxt: Seq<usize>,
    prv: Seq<usize>,
    alive: Seq<bool>,
    idx: Seq<usize>,
)
    requires
        chain_wf(vals, nxt, prv, alive, idx),
    ensures
        idx.len() <= vals.len(),
{
    reveal(in_range);
    reveal(increasing);
    assert forall|k: int| 0 <= k < idx.len() implies idx[k] >= k by {
        lemma_increasing_at_least(idx, k);
    }
    assert(idx[idx.len() - 1] < vals.len());
}

/// Increasing positions are at least their places.
proof fn lemma_increasing_at_least(idx: Seq<usize>, k: int)
    requires
        increasing(idx),
        0 <= k < idx.len(),
    ensures
        idx[k] >= k,
    decreases k,
{
    if k > 0 {
        lemma_increasing_at_least(idx, k - 1);
        reveal(increasing);
        assert(idx[k - 1] < idx[k]);
    }
}

/// Increasing positions compare strictly as their places do.
pub proof fn lemma_increasing_lt(idx: Seq<usize>, k1: int, k2: int)
    requires
        increasing(idx),
        0 <= k1 < k2 < idx.len(),
    ensures
        idx[k1] < idx[k2],
{
    reveal(increasing);
}

} // verus!
