//! What training records of the pairs of the chain: a count and a list of
//! positions per pair, kept under a single integer key.

use vstd::prelude::*;

use crate::pair::{lemma_count_replace, occurs_at, pair_count};
use crate::round::sorted;

verus! {

/// The key under which a pair is counted and indexed.
pub open spec fn pair_key(l: u32, r: u32) -> u64 {
    ((l as u64) << 32u64) | (r as u64)
}

/// Different pairs have different keys.
pub broadcast proof fn lemma_pair_key_injective(l1: u32, r1: u32, l2: u32, r2: u32)
    ensures
        #[trigger] pair_key(l1, r1) == #[trigger] pair_key(l2, r2) ==> l1 == l2 && r1 == r2,
{
    assert(((((l1 as u64) << 32u64) | (r1 as u64)) == (((l2 as u64) << 32u64) | (r2 as u64)))
        ==> l1 == l2 && r1 == r2) by (bit_vector);
}

/// The count recorded under `k`, 0 where none is.
pub open spec fn freq_of(freq: Map<u64, usize>, k: u64) -> nat {
    if freq.contains_key(k) {
        freq[k] as nat
    } else {
        0
    }
}

/// The positions recorded under `k`, none where the key is absent.
pub open spec fn list_of(lists: Map<u64, Vec<usize>>, k: u64) -> Seq<usize> {
    if lists.contains_key(k) {
        lists[k]@
    } else {
        seq![]
    }
}


/// Every recorded list of positions is sorted and within the text.
pub open spec fn lists_wf(lists: Map<u64, Vec<usize>>, n: nat) -> bool {
    forall|k: u64|
        #[trigger] lists.contains_key(k) ==> sorted(lists[k]@) && forall|i: int|
            0 <= i < lists[k]@.len() ==> lists[k]@[i] < n
}

/// Every key of `keys` is that of a pair of tokens below `bound`.
pub open spec fn keys_below(keys: Set<u64>, bound: int) -> bool {
    forall|l: u32, r: u32| #[trigger] keys.contains(pair_key(l, r)) ==> l < bound && r < bound
}

/// The recorded count of every pair but `skip` is its count in `s`.
pub open spec fn counts_exact(freq: Map<u64, usize>, s: Seq<u32>, skip: Option<(u32, u32)>) -> bool {
    forall|l: u32, r: u32|
        skip != Some((l, r)) ==> #[trigger] freq_of(freq, pair_key(l, r)) == pair_count(s, l, r)
}

/// Wherever a pair other than `skip` starts in the chain, its position is recorded for it.
pub open spec fn positions_recorded(
    lists: Map<u64, Vec<usize>>,
    s: Seq<u32>,
    idx: Seq<usize>,
    skip: Option<(u32, u32)>,
) -> bool {
    forall|k: int|
        0 <= k < s.len() - 1 && skip != Some((s[k], s[k + 1])) ==> list_of(
            lists,
            #[trigger] pair_key(s[k], s[k + 1]),
        ).contains(idx[k])
}

/// The lists of pairs that hold `x` hold no position after `bound`.
pub open spec fn new_lists_bounded(lists: Map<u64, Vec<usize>>, x: u32, bound: int) -> bool {
    forall|l: u32, r: u32|
        (l == x || r == x) && #[trigger] lists.contains_key(pair_key(l, r)) ==> forall|t: int|
            0 <= t < lists[pair_key(l, r)]@.len() ==> lists[pair_key(l, r)]@[t] <= bound
}

/// Every token of `s` is below `bound`.
pub open spec fn tokens_below(s: Seq<u32>, bound: int) -> bool {
    forall|i: int| 0 <= i < s.len() ==> #[trigger] s[i] < bound
}


/// `f1` is `f0` with one fewer of `o` (where it is counted at all) and one more of `nw`.
pub open spec fn count_moved(
    f0: Map<u64, usize>,
    f1: Map<u64, usize>,
    o: (u32, u32),
    nw: (u32, u32),
) -> bool {
    let ko = pair_key(o.0, o.1);
    let kn = pair_key(nw.0, nw.1);
    &&& f1.dom() == f0.dom().insert(kn)
    &&& forall|kk: u64| kk != ko && kk != kn ==> #[trigger] freq_of(f1, kk) == freq_of(f0, kk)
    &&& freq_of(f1, ko) == if freq_of(f0, ko) > 0 {
        freq_of(f0, ko) - 1
    } else {
        0
    }
    &&& freq_of(f1, kn) == freq_of(f0, kn) + 1
}

/// `l1` is `l0` with `pos` recorded for the pair `nw`.
pub open spec fn position_added(
    l0: Map<u64, Vec<usize>>,
    l1: Map<u64, Vec<usize>>,
    nw: (u32, u32),
    pos: usize,
) -> bool {
    let kn = pair_key(nw.0, nw.1);
    &&& l1.dom() == l0.dom().insert(kn)
    &&& forall|kk: u64| kk != kn ==> #[trigger] l1[kk] == l0[kk]
    &&& l1[kn]@ == list_of(l0, kn).push(pos)
}


/// The counts after a merge at place `k` of `s`, with the pair to the left of
/// the merged one and the pair to its right moved onto the new token, are the
/// counts of the merged sequence.
pub proof fn lemma_counts_after_merge(
    f0: Map<u64, usize>,
    f1: Map<u64, usize>,
    f2: Map<u64, usize>,
    s: Seq<u32>,
    k: int,
    a: u32,
    b: u32,
    x: u32,
)
    requires
        counts_exact(f0, s, Some((a, b))),
        !f0.contains_key(pair_key(a, b)),
        occurs_at(s, a, b, k),
        x != a,
        x != b,
        k + 2 < s.len() ==> s[k + 2] != x,
        if k > 0 {
            count_moved(f0, f1, (s[k - 1], a), (s[k - 1], x))
        } else {
            f1 == f0
        },
        if k + 2 < s.len() {
            count_moved(f1, f2, (b, s[k + 2]), (x, s[k + 2]))
        } else {
            f2 == f1
        },
    ensures
        counts_exact(f2, s.subrange(0, k) + seq![x] + s.subrange(k + 2, s.len() as int), Some((a, b))),
        !f2.contains_key(pair_key(a, b)),
{
    broadcast use lemma_pair_key_injective;

    let p = s.subrange(0, k);
    let q = s.subrange(k + 2, s.len() as int);
    assert(s =~= p + seq![a, b] + q);
    let s2 = p + seq![x] + q;
    assert forall|l: u32, r: u32| Some((a, b)) != Some((l, r)) implies #[trigger] freq_of(
        f2,
        pair_key(l, r),
    ) == pair_count(s2, l, r) by {
        lemma_count_replace(p, q, a, b, x, l, r);
        assert(freq_of(f0, pair_key(l, r)) == pair_count(s, l, r));
        if k > 0 {
            assert(p.last() == s[k - 1]);
            assert(freq_of(f0, pair_key(s[k - 1], a)) == pair_count(s, s[k - 1], a) || (s[k - 1], a)
                == (a, b));
            lemma_count_replace(p, q, a, b, x, s[k - 1], a);
        }
        if k + 2 < s.len() {
            assert(q[0] == s[k + 2]);
            assert(freq_of(f0, pair_key(b, s[k + 2])) == pair_count(s, b, s[k + 2]) || (b, s[k + 2])
                == (a, b));
            lemma_count_replace(p, q, a, b, x, b, s[k + 2]);
        }
    }
}

/// After a merge at place `k` of `s`, recording the left and right pairs that
/// now hold `x` keeps every pair's positions recorded, sorted, and those of
/// pairs holding `x` no later than the merged position.
pub proof fn lemma_lists_after_merge(
    l0: Map<u64, Vec<usize>>,
    l1: Map<u64, Vec<usize>>,
    l2: Map<u64, Vec<usize>>,
    s: Seq<u32>,
    idx: Seq<usize>,
    k: int,
    a: u32,
    b: u32,
    x: u32,
    bound: int,
    n: nat,
)
    requires
        positions_recorded(l0, s, idx, Some((a, b))),
        lists_wf(l0, n),
        new_lists_bounded(l0, x, bound),
        keys_below(l0.dom(), x + 1),
        tokens_below(s, x + 1),
        idx.len() == s.len(),
        occurs_at(s, a, b, k),
        x != a,
        x != b,
        k + 2 < s.len() ==> s[k + 2] != x,
        idx[k] < n,
        bound < idx[k],
        k > 0 ==> bound <= idx[k - 1] && idx[k - 1] < idx[k],
        if k > 0 {
            position_added(l0, l1, (s[k - 1], x), idx[k - 1])
        } else {
            l1 == l0
        },
        if k + 2 < s.len() {
            position_added(l1, l2, (x, s[k + 2]), idx[k])
        } else {
            l2 == l1
        },
    ensures
        positions_recorded(
            l2,
            s.subrange(0, k) + seq![x] + s.subrange(k + 2, s.len() as int),
            idx.remove(k + 1),
            Some((a, b)),
        ),
        lists_wf(l2, n),
        new_lists_bounded(l2, x, idx[k] as int),
        keys_below(l2.dom(), x + 1),
{
    broadcast use lemma_pair_key_injective;

    let s2 = s.subrange(0, k) + seq![x] + s.subrange(k + 2, s.len() as int);
    let idx2 = idx.remove(k + 1);
    let kl = if k > 0 { pair_key(s[k - 1], x) } else { 0 };
    let kr = if k + 2 < s.len() { pair_key(x, s[k + 2]) } else { 0 };
    // Every list of l0 is a prefix of the same list in l2.
    assert forall|kk: u64, t: int|
        0 <= t < list_of(l0, kk).len() implies list_of(l2, kk).len() >= list_of(l0, kk).len()
        && #[trigger] list_of(l2, kk)[t] == list_of(l0, kk)[t] by {
        if k > 0 && kk == kl {
            assert(list_of(l1, kk)[t] == list_of(l0, kk)[t]);
        } else if k > 0 {
            assert(l1[kk] == l0[kk]);
        }
    }
    assert forall|k2: int|
        0 <= k2 < s2.len() - 1 && Some((a, b)) != Some((s2[k2], s2[k2 + 1])) implies list_of(
        l2,
        #[trigger] pair_key(s2[k2], s2[k2 + 1]),
    ).contains(idx2[k2]) by {
        let kk = pair_key(s2[k2], s2[k2 + 1]);
        if k2 < k - 1 {
            assert(s2[k2] == s[k2] && s2[k2 + 1] == s[k2 + 1] && idx2[k2] == idx[k2]);
            let t = choose|t: int| 0 <= t < list_of(l0, kk).len() && list_of(l0, kk)[t] == idx[k2];
            assert(list_of(l2, kk)[t] == idx2[k2]);
        } else if k2 == k - 1 {
            assert(s2[k2] == s[k - 1] && s2[k2 + 1] == x && idx2[k2] == idx[k - 1]);
            assert(list_of(l1, kk).last() == idx[k - 1]);
            if k + 2 < s.len() {
                assert(kk != kr);
                assert(l2[kk] == l1[kk]);
            }
            assert(list_of(l2, kk)[list_of(l1, kk).len() - 1] == idx[k - 1]);
        } else if k2 == k {
            assert(s2[k2] == x && s2[k2 + 1] == s[k + 2] && idx2[k2] == idx[k]);
            assert(list_of(l2, kk).last() == idx[k]);
        } else {
            assert(s2[k2] == s[k2 + 1] && s2[k2 + 1] == s[k2 + 2] && idx2[k2] == idx[k2 + 1]);
            let k3 = k2 + 1;
            assert(s[k3 + 1] == s[k2 + 2]);
            assert(list_of(l0, pair_key(s[k3], s[k3 + 1])).contains(idx[k3]));
            let t = choose|t: int| 0 <= t < list_of(l0, kk).len() && list_of(l0, kk)[t] == idx[k2 + 1];
            assert(list_of(l2, kk)[t] == idx2[k2]);
        }
    }
    assert forall|kk: u64| #[trigger] l2.contains_key(kk) implies sorted(l2[kk]@) && forall|i: int|
        0 <= i < l2[kk]@.len() ==> l2[kk]@[i] < n by {
        if k + 2 < s.len() && kk == kr {
            assert(l2[kk]@ == list_of(l1, kk).push(idx[k]));
            if k > 0 {
                assert(kk != kl);
                assert(list_of(l1, kk) == list_of(l0, kk));
            }
            assert forall|i: int| 0 <= i < list_of(l1, kk).len() implies list_of(l1, kk)[i] <= bound by {
                if l0.contains_key(kk) {
                    assert(l0[kk]@[i] <= bound);
                }
            }
        } else if k > 0 && kk == kl {
            assert(l2[kk] == l1[kk]);
            assert(l1[kk]@ == list_of(l0, kk).push(idx[k - 1]));
            assert forall|i: int| 0 <= i < list_of(l0, kk).len() implies list_of(l0, kk)[i] <= bound by {
                assert(l0[kk]@[i] <= bound);
            }
        } else {
            if k > 0 {
                assert(l1[kk] == l0[kk]);
            }
            assert(l2[kk] == l0[kk]);
        }
    }
    assert forall|l: u32, r: u32|
        (l == x || r == x) && #[trigger] l2.contains_key(pair_key(l, r)) implies forall|t: int|
        0 <= t < l2[pair_key(l, r)]@.len() ==> l2[pair_key(l, r)]@[t] <= idx[k] by {
        let kk = pair_key(l, r);
        if k + 2 < s.len() && kk == kr {
            if k > 0 {
                assert(kk != kl);
            }
            assert forall|t: int| 0 <= t < l2[kk]@.len() implies l2[kk]@[t] <= idx[k] by {
                if t < l2[kk]@.len() - 1 {
                    assert(l2[kk]@[t] == list_of(l0, kk)[t]);
                    assert(l0[kk]@[t] <= bound);
                }
            }
        } else if k > 0 && kk == kl {
            assert(l2[kk] == l1[kk]);
            assert forall|t: int| 0 <= t < l2[kk]@.len() implies l2[kk]@[t] <= idx[k] by {
                if t < l2[kk]@.len() - 1 {
                    assert(l2[kk]@[t] == list_of(l0, kk)[t]);
                    assert(l0[kk]@[t] <= bound);
                }
            }
        } else {
            if k > 0 {
                assert(l1[kk] == l0[kk]);
            }
            assert(l2[kk] == l0[kk]);
        }
    }
    assert forall|l: u32, r: u32| #[trigger] l2.dom().contains(pair_key(l, r)) implies l < x + 1 && r
        < x + 1 by {
        if k > 0 {
            assert(s[k - 1] < x + 1);
        }
        if k + 2 < s.len() {
            assert(s[k + 2] < x + 1);
        }
    }
}

} // verus!
