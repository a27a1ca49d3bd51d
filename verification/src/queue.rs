//! The queue of merge candidates: a set of (count, left, right) triples from
//! which the greatest is taken first. A candidate is current when its count is
//! the pair's count; stale candidates are dropped when they come up.

use std::collections::{BTreeSet, HashMap};

use vstd::prelude::*;

use crate::index::{count_moved, counts_exact, freq_of, pair_key, lemma_pair_key_injective};
use crate::model::{best_pair, is_best, lemma_best_unique, outranks};
use crate::pair::pair_count;

verus! {

broadcast use {vstd::std_specs::hash::group_hash_axioms, vstd::laws_cmp::group_laws_cmp};

/// Candidates are ordered by count, then left token, then right token.
pub open spec fn entry_lt(a: (u64, u32, u32), b: (u64, u32, u32)) -> bool {
    a.0 < b.0 || (a.0 == b.0 && (a.1 < b.1 || (a.1 == b.1 && a.2 < b.2)))
}

/// Every pair but `skip` that is counted at least once has its count queued.
pub open spec fn queued(
    queue: Set<(u64, u32, u32)>,
    freq: Map<u64, usize>,
    skip: Option<(u32, u32)>,
) -> bool {
    forall|l: u32, r: u32|
        skip != Some((l, r)) && #[trigger] freq_of(freq, pair_key(l, r)) >= 1 ==> queue.contains(
            (freq_of(freq, pair_key(l, r)) as u64, l, r),
        )
}

/// The queue after a count has moved from `o` to `nw`: the new count of `nw`
/// queued, and the new count of `o` too where it is still positive.
pub open spec fn requeued(
    q0: Set<(u64, u32, u32)>,
    f1: Map<u64, usize>,
    o: (u32, u32),
    nw: (u32, u32),
) -> Set<(u64, u32, u32)> {
    let q1 = q0.insert((freq_of(f1, pair_key(nw.0, nw.1)) as u64, nw.0, nw.1));
    if freq_of(f1, pair_key(o.0, o.1)) > 0 {
        q1.insert((freq_of(f1, pair_key(o.0, o.1)) as u64, o.0, o.1))
    } else {
        q1
    }
}

/// Moving a count and queueing both new counts keeps every count queued.
pub proof fn lemma_queued_after_move(
    q0: Set<(u64, u32, u32)>,
    f0: Map<u64, usize>,
    f1: Map<u64, usize>,
    o: (u32, u32),
    nw: (u32, u32),
    skip: Option<(u32, u32)>,
)
    requires
        queued(q0, f0, skip),
        count_moved(f0, f1, o, nw),
    ensures
        queued(requeued(q0, f1, o, nw), f1, skip),
{
    broadcast use lemma_pair_key_injective;

    let q1 = requeued(q0, f1, o, nw);
    assert forall|l: u32, r: u32|
        skip != Some((l, r)) && #[trigger] freq_of(f1, pair_key(l, r)) >= 1 implies q1.contains(
        (freq_of(f1, pair_key(l, r)) as u64, l, r),
    ) by {
        let k = pair_key(l, r);
        if k != pair_key(o.0, o.1) && k != pair_key(nw.0, nw.1) {
            assert(freq_of(f1, k) == freq_of(f0, k));
        }
    }
}

/// Removes and returns the greatest candidate, if any.
///
/// Calls `BTreeSet::pop_last`, which std documents as removing and returning
/// the last element, the maximum, or `None` for an empty set. Tuples are
/// ordered lexicographically, as std documents for them; this contract claims
/// exactly that.
#[verifier::external_body]
fn pop_max(queue: &mut BTreeSet<(u64, u32, u32)>) -> (top: Option<(u64, u32, u32)>)
    ensures
        match top {
            None => old(queue)@ == Set::<(u64, u32, u32)>::empty() && final(queue)@ == old(queue)@,
            Some(e) => {
                &&& old(queue)@.contains(e)
                &&& final(queue)@ == old(queue)@.remove(e)
                &&& forall|f: (u64, u32, u32)| #[trigger] old(queue)@.contains(f) ==> !entry_lt(e, f)
            },
        },
{
    queue.pop_last()
}

/// An empty queue.
pub(crate) fn new_queue() -> (queue: BTreeSet<(u64, u32, u32)>)
    ensures
        queue@ == Set::<(u64, u32, u32)>::empty(),
        queue@.finite(),
{
    BTreeSet::new()
}

/// Adds a candidate.
pub(crate) fn queue_add(queue: &mut BTreeSet<(u64, u32, u32)>, e: (u64, u32, u32))
    requires
        old(queue)@.finite(),
    ensures
        final(queue)@ == old(queue)@.insert(e),
        final(queue)@.finite(),
{
    queue.insert(e);
}

/// Takes candidates off the queue, greatest first, dropping those that are
/// not current, until one is current: its count is the pair's count in `seq`,
/// as `freq` records it. With every count queued, that candidate's pair is the
/// best pair of `seq`; with none current, no pair occurs. The queue keeps
/// every count but that of the pair returned.
pub(crate) fn select_candidate(
    queue: &mut BTreeSet<(u64, u32, u32)>,
    freq: &HashMap<u64, usize>,
    Ghost(seq): Ghost<Seq<u32>>,
) -> (top: Option<(u64, u32, u32)>)
    requires
        counts_exact(freq@, seq, None),
        queued(old(queue)@, freq@, None),
        old(queue)@.finite(),
    ensures
        final(queue)@.finite(),
        match top {
            None => best_pair(seq) is None,
            Some(e) => {
                &&& best_pair(seq) == Some((e.1, e.2))
                &&& e.0 == pair_count(seq, e.1, e.2)
                &&& queued(final(queue)@, freq@, Some((e.1, e.2)))
            },
        },
{
    broadcast use lemma_pair_key_injective;

    loop
        invariant
            counts_exact(freq@, seq, None),
            queue@.finite(),
            queued(queue@, freq@, None),
        decreases queue@.len(),
    {
        let ghost before = queue@;
        match pop_max(queue) {
            None => {
                proof {
                    if best_pair(seq) is Some {
                        let p = choose|p: (u32, u32)| is_best(seq, p.0, p.1);
                        assert(freq_of(freq@, pair_key(p.0, p.1)) == pair_count(seq, p.0, p.1));
                        assert(before.contains((freq_of(freq@, pair_key(p.0, p.1)) as u64, p.0, p.1)));
                    }
                }
                return None;
            },
            Some(e) => {
                proof {
                    assert(queue@.len() < before.len());
                }
                let (count, l, r) = e;
                let k = crate::train::key_of(l, r);
                let current: usize = match freq.get(&k) {
                    Some(c) => *c,
                    None => 0,
                };
                assert(current == freq_of(freq@, pair_key(l, r)));
                if current != 0 && count == current as u64 {
                    proof {
                        assert(freq_of(freq@, pair_key(l, r)) == pair_count(seq, l, r));
                        assert forall|l2: u32, r2: u32| #[trigger] pair_count(seq, l2, r2) >= 1 implies !outranks(
                            seq,
                            l2,
                            r2,
                            l,
                            r,
                        ) by {
                            assert(freq_of(freq@, pair_key(l2, r2)) == pair_count(seq, l2, r2));
                            assert(before.contains((freq_of(freq@, pair_key(l2, r2)) as u64, l2, r2)));
                        }
                        assert(is_best(seq, l, r));
                        lemma_best_unique(seq, l, r);
                        assert forall|l2: u32, r2: u32|
                            Some((l, r)) != Some((l2, r2)) && #[trigger] freq_of(freq@, pair_key(l2, r2)) >= 1 implies queue@.contains(
                            (freq_of(freq@, pair_key(l2, r2)) as u64, l2, r2),
                        ) by {
                            assert(before.contains((freq_of(freq@, pair_key(l2, r2)) as u64, l2, r2)));
                        }
                    }
                    return Some(e);
                }
                proof {
                    assert forall|l2: u32, r2: u32|
                        #[trigger] freq_of(freq@, pair_key(l2, r2)) >= 1 implies queue@.contains(
                        (freq_of(freq@, pair_key(l2, r2)) as u64, l2, r2),
                    ) by {
                        assert(before.contains((freq_of(freq@, pair_key(l2, r2)) as u64, l2, r2)));
                        if (freq_of(freq@, pair_key(l2, r2)) as u64, l2, r2) == e {
                            assert(freq_of(freq@, pair_key(l2, r2)) < 0x1_0000_0000_0000_0000);
                        }
                    }
                }
            },
        }
    }
}

} // verus!
