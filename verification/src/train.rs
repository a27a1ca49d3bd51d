//! Training a merge table: the token sequence is kept as a linked list over
//! the positions of the text, with the count and the positions of every pair,
//! so that a round visits only the places where its pair occurs.

use std::collections::{BTreeSet, HashMap};

use vstd::prelude::*;

use crate::bpe::{vocab_chars, Bpe};
use crate::chain::{
    alive_ok, chain_seq, chain_wf, in_range, increasing, lemma_chain_at, lemma_chain_merge,
    lemma_chain_rank, links_ok, merged_links, Chain,
};
use crate::pair::{
    lemma_count_bound, lemma_count_concat, lemma_count_positive, lemma_count_witness, lemma_merge_bound, lemma_merge_first,
    lemma_merge_len, lemma_merge_removes_pair, lemma_merge_untouched_prefix, merge_seq, occurs_at,
    pair_count, Pair,
};
use crate::model::{
    best_pair, initial_vocab, is_best, lemma_best_exists, lemma_run_stops, max_code, run, start, step,
    trained, vocab_text,
};
use crate::queue::{lemma_queued_after_move, new_queue, queue_add, queued, requeued, select_candidate};
use crate::text::{char_codes, char_string, codes_of, text_chars};
use crate::round::{
    lemma_not_pending_at, lemma_pending_alive, lemma_pending_skip, lemma_round_split_merge, pending,
    round_split, sorted,
};
use crate::index::{
    count_moved, counts_exact, freq_of, keys_below, lemma_counts_after_merge, lemma_lists_after_merge,
    lemma_pair_key_injective, list_of, lists_wf, new_lists_bounded, pair_key, position_added,
    positions_recorded, tokens_below,
};

verus! {

broadcast use vstd::std_specs::hash::group_hash_axioms;

pub(crate) fn key_of(l: u32, r: u32) -> (k: u64)
    ensures
        k == pair_key(l, r),
{
    ((l as u64) << 32u64) | (r as u64)
}

/// Pair counts and, for each pair, positions where it may start.
///
/// A position is added to a pair's list when the pair comes to start there,
/// and is not taken out when the pair stops starting there: a list may hold
/// such stale positions, and the round that merges the pair checks each
/// position against the chain before merging there. Every position is added
/// at most once per occurrence that a merge creates, and a list is dropped
/// when its pair is merged, so stale positions add at most that many visits
/// over the whole of training.
struct PairIndex {
    freq: HashMap<u64, usize>,
    lists: HashMap<u64, Vec<usize>>,
}

/// Moves one occurrence from `old_pair` to `new_pair`, which now starts at
/// `new_pos`: one fewer of the old pair (where it is counted at all), one more
/// of the new, `new_pos` recorded for the new pair, the new pair's count
/// queued, and the old pair's lower count queued where it is still positive.
/// The old pair's list of positions is left as it is (see `PairIndex`).
fn update_pair(
    index: &mut PairIndex,
    queue: &mut BTreeSet<(u64, u32, u32)>,
    old_pair: (u32, u32),
    new_pair: (u32, u32),
    new_pos: usize,
)
    requires
        old_pair != new_pair,
        freq_of(old(index).freq@, pair_key(new_pair.0, new_pair.1)) < usize::MAX,
        old(queue)@.finite(),
    ensures
        count_moved(old(index).freq@, final(index).freq@, old_pair, new_pair),
        position_added(old(index).lists@, final(index).lists@, new_pair, new_pos),
        final(queue)@ == requeued(old(queue)@, final(index).freq@, old_pair, new_pair),
        final(queue)@.finite(),
{
    broadcast use lemma_pair_key_injective;

    let ko = key_of(old_pair.0, old_pair.1);
    let kn = key_of(new_pair.0, new_pair.1);
    let old_count = match index.freq.get(&ko) {
        Some(c) => Some(*c),
        None => None,
    };
    let mut lowered: usize = 0;
    if let Some(c) = old_count {
        lowered = c.saturating_sub(1);
        index.freq.insert(ko, lowered);
    }
    let count = match index.freq.get(&kn) {
        Some(c) => *c,
        None => 0,
    };
    index.freq.insert(kn, count + 1);
    queue_add(queue, ((count + 1) as u64, new_pair.0, new_pair.1));
    if lowered > 0 {
        queue_add(queue, (lowered as u64, old_pair.0, old_pair.1));
    }
    let mut positions = match index.lists.remove(&kn) {
        Some(v) => v,
        None => Vec::new(),
    };
    positions.push(new_pos);
    index.lists.insert(kn, positions);
    assert(index.freq@.dom() =~= old(index).freq@.dom().insert(kn));
    assert(index.lists@.dom() =~= old(index).lists@.dom().insert(kn));
}

/// Counts one more occurrence of `pair`, which starts at `pos`, and notes the
/// pair in `seen` the first time it is counted.
fn add_pair(index: &mut PairIndex, seen: &mut Vec<(u32, u32)>, pair: (u32, u32), pos: usize)
    requires
        freq_of(old(index).freq@, pair_key(pair.0, pair.1)) < usize::MAX,
    ensures
        final(index).freq@.dom() == old(index).freq@.dom().insert(pair_key(pair.0, pair.1)),
        forall|kk: u64|
            kk != pair_key(pair.0, pair.1) ==> #[trigger] freq_of(final(index).freq@, kk) == freq_of(
                old(index).freq@,
                kk,
            ),
        freq_of(final(index).freq@, pair_key(pair.0, pair.1)) == freq_of(
            old(index).freq@,
            pair_key(pair.0, pair.1),
        ) + 1,
        position_added(old(index).lists@, final(index).lists@, pair, pos),
        final(seen)@ == if old(index).freq@.contains_key(pair_key(pair.0, pair.1)) {
            old(seen)@
        } else {
            old(seen)@.push(pair)
        },
{
    let k = key_of(pair.0, pair.1);
    let count = match index.freq.get(&k) {
        Some(c) => *c,
        None => {
            seen.push(pair);
            0
        },
    };
    index.freq.insert(k, count + 1);
    let mut positions = match index.lists.remove(&k) {
        Some(v) => v,
        None => Vec::new(),
    };
    positions.push(pos);
    index.lists.insert(k, positions);
    assert(index.freq@.dom() =~= old(index).freq@.dom().insert(k));
    assert(index.lists@.dom() =~= old(index).lists@.dom().insert(k));
}

/// One candidate per pair of `pairs`, with its count in `seq`.
pub open spec fn entries_exact(pairs: Seq<(u32, u32)>, seq: Seq<u32>) -> Set<(u64, u32, u32)> {
    Set::new(|f: (u64, u32, u32)| pairs.contains((f.1, f.2)) && f.0 == pair_count(seq, f.1, f.2))
}

/// One round: merges every occurrence of `a`, `b`, from left to right, into
/// `x`, visiting only `positions`, which hold every place where the pair
/// starts. Counts and recorded positions follow the chain, and every count
/// that changes is queued.
#[verifier::rlimit(50)]
fn merge_round(
    chain: &mut Chain,
    index: &mut PairIndex,
    queue: &mut BTreeSet<(u64, u32, u32)>,
    positions: &Vec<usize>,
    a: u32,
    b: u32,
    x: u32,
    Ghost(idx0): Ghost<Seq<usize>>,
) -> (idx: Ghost<Seq<usize>>)
    requires
        chain_wf(old(chain).vals@, old(chain).nxt@, old(chain).prv@, old(chain).alive@, idx0),
        old(chain).vals@.len() < usize::MAX,
        tokens_below(chain_seq(old(chain).vals@, idx0), x as int),
        a < x,
        b < x,
        x < u32::MAX,
        counts_exact(old(index).freq@, chain_seq(old(chain).vals@, idx0), Some((a, b))),
        !old(index).freq@.contains_key(pair_key(a, b)),
        keys_below(old(index).freq@.dom(), x as int),
        keys_below(old(index).lists@.dom(), x as int),
        positions_recorded(old(index).lists@, chain_seq(old(chain).vals@, idx0), idx0, Some((a, b))),
        lists_wf(old(index).lists@, old(chain).vals@.len()),
        sorted(positions@),
        forall|i: int| 0 <= i < positions@.len() ==> positions@[i] < old(chain).vals@.len(),
        forall|i: int|
            occurs_at(chain_seq(old(chain).vals@, idx0), a, b, i) ==> positions@.contains(idx0[i]),
        queued(old(queue)@, old(index).freq@, Some((a, b))),
        old(queue)@.finite(),
    ensures
        ({
            let merged = merge_seq(chain_seq(old(chain).vals@, idx0), a, b, x);
            &&& chain_wf(final(chain).vals@, final(chain).nxt@, final(chain).prv@, final(chain).alive@, idx@)
            &&& final(chain).vals@.len() == old(chain).vals@.len()
            &&& chain_seq(final(chain).vals@, idx@) == merged
            &&& counts_exact(final(index).freq@, merged, None)
            &&& keys_below(final(index).freq@.dom(), x + 1)
            &&& keys_below(final(index).lists@.dom(), x + 1)
            &&& positions_recorded(final(index).lists@, merged, idx@, None)
            &&& lists_wf(final(index).lists@, old(chain).vals@.len())
            &&& queued(final(queue)@, final(index).freq@, None)
            &&& final(queue)@.finite()
        }),
{
    broadcast use lemma_pair_key_injective;

    let n = chain.vals.len();
    let ghost s0 = chain_seq(chain.vals@, idx0);
    let ghost mut idx = idx0;
    let ghost mut d: Seq<u32> = seq![];
    let ghost mut idx_d: Seq<usize> = seq![];
    let ghost mut u: int = 0;
    let ghost mut bound: int = -1;
    proof {
        assert(idx0.subrange(0, s0.len() as int) =~= idx0);
        assert(s0.subrange(0, s0.len() as int) =~= s0);
        assert(d + s0 =~= s0);
        assert(idx_d + idx0 =~= idx0);
        assert forall|i: int| 0 <= i && #[trigger] occurs_at(s0, a, b, i) implies exists|t: int|
            0 <= t < positions@.len() && positions@[t] == idx0[i] by {
            assert(positions@.contains(idx0[i]));
        }
        assert forall|l: u32, r: u32|
            (l == x || r == x) && #[trigger] index.lists@.contains_key(pair_key(l, r)) implies forall|
            t: int,
        | 0 <= t < index.lists@[pair_key(l, r)]@.len() ==> index.lists@[pair_key(l, r)]@[t] <= bound by {
            assert(index.lists@.dom().contains(pair_key(l, r)));
        }
    }
    let mut j: usize = 0;
    while j < positions.len()
        invariant
            n == chain.vals@.len(),
            n < usize::MAX,
            chain_wf(chain.vals@, chain.nxt@, chain.prv@, chain.alive@, idx),
            increasing(idx0),
            round_split(s0, idx0, chain_seq(chain.vals@, idx), idx, d, idx_d, u, a, b, x),
            pending(s0, idx0, positions@, j as int, u, a, b),
            j <= positions@.len(),
            sorted(positions@),
            forall|i: int| 0 <= i < positions@.len() ==> positions@[i] < n,
            idx_d.len() > 0 ==> bound == idx_d.last(),
            idx_d.len() == 0 ==> bound == -1,
            counts_exact(index.freq@, chain_seq(chain.vals@, idx), Some((a, b))),
            !index.freq@.contains_key(pair_key(a, b)),
            keys_below(index.freq@.dom(), x + 1),
            keys_below(index.lists@.dom(), x + 1),
            positions_recorded(index.lists@, chain_seq(chain.vals@, idx), idx, Some((a, b))),
            lists_wf(index.lists@, n as nat),
            new_lists_bounded(index.lists@, x, bound),
            queued(queue@, index.freq@, Some((a, b))),
            queue@.finite(),
            tokens_below(chain_seq(chain.vals@, idx), x + 1),
            tokens_below(s0, x as int),
            a < x,
            b < x,
            x < u32::MAX,
        decreases positions@.len() - j,
    {
        let pos = positions[j];
        let ghost s = chain_seq(chain.vals@, idx);
        if chain.alive[pos] {
            let ghost k = lemma_chain_rank(chain.vals@, chain.nxt@, chain.prv@, chain.alive@, idx, pos as int);
            proof {
                lemma_chain_at(chain.vals@, chain.nxt@, chain.prv@, chain.alive@, idx, k);
            }
            let right = chain.nxt[pos];
            if right < n && chain.alive[right] && chain.vals[pos] == a && chain.vals[right] == b {
                assert(occurs_at(s, a, b, k));
                let ghost i = lemma_round_split_merge(
                    s0,
                    idx0,
                    s,
                    idx,
                    d,
                    idx_d,
                    u,
                    a,
                    b,
                    x,
                    positions@,
                    j as int,
                    k,
                );
                let ghost f0 = index.freq@;
                let ghost l0 = index.lists@;
                let ghost q0 = queue@;
                let ghost vals0 = chain.vals@;
                let ghost nxt0 = chain.nxt@;
                let ghost prv0 = chain.prv@;
                let ghost alive0 = chain.alive@;
                proof {
                    crate::chain::lemma_chain_len(chain.vals@, chain.nxt@, chain.prv@, chain.alive@, idx);
                    assert(s.len() <= n);
                }
                let left = chain.prv[pos];
                if left < n && chain.alive[left] {
                    let vl = chain.vals[left];
                    assert(k > 0);
                    assert(vl == s[k - 1]);
                    proof {
                        lemma_count_bound(s, vl, x);
                        assert(freq_of(f0, pair_key(vl, x)) == pair_count(s, vl, x));
                    }
                    update_pair(index, queue, (vl, a), (vl, x), left);
                    proof {
                        lemma_queued_after_move(q0, f0, index.freq@, (vl, a), (vl, x), Some((a, b)));
                    }
                } else {
                    assert(k == 0);
                }
                let ghost f1 = index.freq@;
                let ghost l1 = index.lists@;
                let ghost q1 = queue@;
                let rr = chain.nxt[right];
                proof {
                    lemma_chain_at(chain.vals@, chain.nxt@, chain.prv@, chain.alive@, idx, k + 1);
                }
                if rr < n && chain.alive[rr] {
                    let vr = chain.vals[rr];
                    assert(k + 2 < idx.len());
                    assert(vr == s[k + 2]);
                    assert(s[k + 2] == s0[i + 2]);
                    proof {
                        lemma_count_bound(s, x, vr);
                        assert(freq_of(f0, pair_key(x, vr)) == pair_count(s, x, vr));
                        assert(freq_of(f1, pair_key(x, vr)) <= freq_of(f0, pair_key(x, vr)) + 1);
                    }
                    update_pair(index, queue, (b, vr), (x, vr), pos);
                    proof {
                        lemma_queued_after_move(q1, f1, index.freq@, (b, vr), (x, vr), Some((a, b)));
                    }
                } else {
                    assert(k + 2 >= idx.len());
                }
                chain.vals.set(pos, x);
                chain.alive.set(right, false);
                chain.nxt.set(pos, rr);
                if rr < n {
                    chain.prv.set(rr, pos);
                }
                proof {
                    lemma_chain_merge(vals0, nxt0, prv0, alive0, idx, k, x);
                    let (v2, n2, p2, a2, i2) = merged_links(vals0, nxt0, prv0, alive0, idx, k, x);
                    assert(chain.vals@ == v2);
                    assert(chain.nxt@ == n2);
                    assert(chain.prv@ == p2);
                    assert(chain.alive@ == a2);
                    if k + 2 < idx.len() {
                        assert(s[k + 2] != x);
                    }
                    lemma_counts_after_merge(f0, f1, index.freq@, s, k, a, b, x);
                    assert forall|l: u32, r: u32| #[trigger] index.freq@.dom().contains(pair_key(l, r))
                        implies l < x + 1 && r < x + 1 by {
                        if f0.dom().contains(pair_key(l, r)) {
                            assert(keys_below(f0.dom(), x + 1));
                        } else {
                            if k > 0 && f1.dom().contains(pair_key(l, r)) {
                                assert(pair_key(l, r) == pair_key(s[k - 1], x));
                                lemma_pair_key_injective(l, r, s[k - 1], x);
                                assert(s[k - 1] < x + 1);
                            } else {
                                assert(k + 2 < idx.len());
                                assert(pair_key(l, r) == pair_key(x, s[k + 2]));
                                lemma_pair_key_injective(l, r, x, s[k + 2]);
                                assert(s[k + 2] < x + 1);
                            }
                        }
                    }
                    if idx_d.len() > 0 {
                        assert(idx[d.len() - 1] == idx_d.last());
                        crate::chain::lemma_increasing_lt(idx, d.len() - 1, k);
                        assert(bound < idx[k]);
                        if k > 0 {
                            assert(idx[d.len() - 1] <= idx[k - 1]) by {
                                crate::chain::lemma_increasing_le(idx, d.len() - 1, k - 1);
                            }
                        }
                    }
                    lemma_lists_after_merge(l0, l1, index.lists@, s, idx, k, a, b, x, bound, n as nat);
                    let s2 = s.subrange(0, k) + seq![x] + s.subrange(k + 2, s.len() as int);
                    assert(chain_seq(chain.vals@, i2) == s2);
                    assert forall|t: int| 0 <= t < s2.len() implies #[trigger] s2[t] < x + 1 by {
                        if t < k {
                            assert(s2[t] == s[t]);
                        } else if t > k {
                            assert(s2[t] == s[t + 1]);
                        }
                    }
                    let new_d = d + s0.subrange(u, i) + seq![x];
                    let new_idx_d = idx_d + idx0.subrange(u, i) + seq![idx[k]];
                    idx = i2;
                    d = new_d;
                    idx_d = new_idx_d;
                    u = i + 2;
                    bound = pos as int;
                }
            } else {
                proof {
                    if k + 1 < idx.len() {
                        assert(!occurs_at(s, a, b, k));
                    }
                    lemma_not_pending_at(s0, idx0, s, idx, d, idx_d, u, a, b, x, k);
                    lemma_pending_skip(s0, idx0, positions@, j as int, u, a, b);
                }
            }
        } else {
            proof {
                assert forall|i: int| u <= i && occurs_at(s0, a, b, i) implies idx0[i] != positions@[j as int] by {
                    lemma_pending_alive(s0, idx0, s, idx, d, idx_d, u, a, b, x, i);
                    crate::chain::lemma_chain_alive(chain.vals@, chain.nxt@, chain.prv@, chain.alive@, idx, idx0[i] as int);
                }
                lemma_pending_skip(s0, idx0, positions@, j as int, u, a, b);
            }
        }
        j += 1;
    }
    proof {
        let m0 = s0.len() as int;
        let rest = s0.subrange(u, m0);
        assert forall|i2: int| 0 <= i2 < m0 - u implies !occurs_at(rest, a, b, i2) by {
            if occurs_at(rest, a, b, i2) {
                assert(occurs_at(s0, a, b, u + i2));
            }
        }
        lemma_merge_untouched_prefix(rest, a, b, x, m0 - u);
        assert(rest.subrange(0, m0 - u) =~= rest);
        assert(rest.subrange(m0 - u, rest.len() as int) =~= Seq::<u32>::empty());
        assert(rest + Seq::<u32>::empty() =~= rest);
        let merged = merge_seq(s0, a, b, x);
        assert(chain_seq(chain.vals@, idx) == merged);
        lemma_merge_removes_pair(s0, a, b, x);
        assert forall|l: u32, r: u32| None::<(u32, u32)> != Some((l, r)) implies #[trigger] freq_of(
            index.freq@,
            pair_key(l, r),
        ) == pair_count(merged, l, r) by {
            if (l, r) != (a, b) {
                assert(freq_of(index.freq@, pair_key(l, r)) == pair_count(merged, l, r));
            }
        }
        assert forall|k: int|
            0 <= k < merged.len() - 1 && None::<(u32, u32)> != Some((merged[k], merged[k + 1])) implies list_of(
            index.lists@,
            #[trigger] pair_key(merged[k], merged[k + 1]),
        ).contains(idx[k]) by {
            if (merged[k], merged[k + 1]) == (a, b) {
                lemma_count_positive(merged, a, b, k);
            }
        }
        assert forall|l: u32, r: u32|
            None::<(u32, u32)> != Some((l, r)) && #[trigger] freq_of(index.freq@, pair_key(l, r)) >= 1 implies queue@.contains(
            (freq_of(index.freq@, pair_key(l, r)) as u64, l, r),
        ) by {
            if (l, r) == (a, b) {
                assert(!index.freq@.contains_key(pair_key(a, b)));
            }
        }
    }
    Ghost(idx)
}

impl Bpe {
    /// Trains a table on `text` for up to `num_merges` rounds.
    ///
    /// Each round merges the best pair of the current sequence: the one that
    /// occurs most often, ties going to the greater pair (see `model`). It is
    /// replaced from left to right by a new token whose text is the texts of
    /// the two tokens together. New tokens are numbered on from one above the
    /// greatest character code of the text. Training stops early when fewer
    /// than two tokens are left, or when the token ids run out.
    pub fn train(text: &str, num_merges: usize) -> (bpe: Bpe)
        requires
            text@.len() < usize::MAX,
        ensures
            bpe.merges@ == trained(text@, num_merges as nat).merges,
            bpe.vocab_view() == trained(text@, num_merges as nat).vocab,
    {
        broadcast use lemma_pair_key_injective;

        let chars = text_chars(text);
        let codes = codes_of(&chars);
        let n = codes.len();
        let ghost all_codes = char_codes(text@);
        let mut vocab: HashMap<u32, String> = HashMap::new();
        let mut max_seen: u32 = 0;
        for i in 0..n
            invariant
                n == codes@.len(),
                chars@ == text@,
                codes@ == all_codes,
                all_codes == char_codes(text@),
                vocab_chars(vocab@) == initial_vocab(text@.take(i as int)),
                max_seen == max_code(all_codes.take(i as int)),
                max_seen <= 0x10FFFF,
        {
            let s = char_string(chars[i]);
            let ghost before = vocab@;
            proof {
                vstd::utf8::char_is_scalar(chars@[i as int]);
            }
            vocab.insert(codes[i], s);
            proof {
                assert(text@.take(i + 1).drop_last() =~= text@.take(i as int));
                assert(all_codes.take(i + 1).drop_last() =~= all_codes.take(i as int));
                assert(vocab_chars(vocab@) =~= vocab_chars(before).insert(codes@[i as int], seq![chars@[i as int]]));
            }
            if codes[i] > max_seen {
                max_seen = codes[i];
            }
        }
        proof {
            assert(text@.take(n as int) =~= text@);
            assert(all_codes.take(n as int) =~= all_codes);
            crate::model::lemma_max_code(all_codes);
        }
        let mut merges: Vec<(Pair, u32)> = Vec::new();
        let mut next_id: u32 = max_seen + 1;
        let ghost t0 = start(text@);
        if n < 2 {
            proof {
                lemma_best_exists(t0.seq);
                lemma_run_stops(t0, 0, num_merges as nat);
                assert(merges@ =~= t0.merges);
            }
            return Bpe { merges, vocab };
        }
        // The chain over all positions.
        let mut nxt: Vec<usize> = Vec::with_capacity(n);
        let mut prv: Vec<usize> = Vec::with_capacity(n);
        for i in 0..n
            invariant
                nxt@ =~= Seq::new(i as nat, |p: int| (p + 1) as usize),
                prv@ =~= Seq::new(i as nat, |p: int| if p == 0 { usize::MAX } else { (p - 1) as usize }),
        {
            nxt.push(i + 1);
            prv.push(if i == 0 { usize::MAX } else { i - 1 });
        }
        let alive: Vec<bool> = vec![true; n];
        let mut chain = Chain { vals: codes, nxt, prv, alive };
        let ghost mut idx: Seq<usize> = Seq::new(n as nat, |p: int| p as usize);
        proof {
            reveal(increasing);
            reveal(in_range);
            reveal(links_ok);
            reveal(alive_ok);
            assert forall|p: int| 0 <= p < n implies (#[trigger] chain.alive@[p] <==> crate::chain::in_chain(idx, p)) by {
                assert(idx[p] == p);
            }
            assert(chain_seq(chain.vals@, idx) =~= all_codes);
        }
        // Count every pair and record where it starts.
        let mut index = PairIndex { freq: HashMap::new(), lists: HashMap::new() };
        let mut seen: Vec<(u32, u32)> = Vec::new();
        let mut i: usize = 0;
        proof {
            assert forall|l: u32, r: u32| #[trigger] freq_of(index.freq@, pair_key(l, r)) == pair_count(all_codes.take(1), l, r) by {}
        }
        while i + 1 < n
            invariant
                2 <= n < usize::MAX,
                n == chain.vals@.len(),
                chain.vals@ == all_codes,
                i + 1 <= n,
                next_id == max_seen + 1,
                forall|p: int| 0 <= p < n ==> #[trigger] all_codes[p] <= max_seen,
                counts_exact(index.freq@, all_codes.take(i + 1), None),
                forall|k: int|
                    0 <= k < i ==> list_of(index.lists@, #[trigger] pair_key(all_codes[k], all_codes[k + 1])).contains(k as usize),
                forall|kk: u64, t: int|
                    index.lists@.contains_key(kk) && 0 <= t < index.lists@[kk]@.len() ==> #[trigger] index.lists@[kk]@[t] < i,
                lists_wf(index.lists@, n as nat),
                keys_below(index.freq@.dom(), next_id as int),
                keys_below(index.lists@.dom(), next_id as int),
                forall|l: u32, r: u32| #[trigger] index.freq@.contains_key(pair_key(l, r)) ==> seen@.contains((l, r)),
                forall|t: int| 0 <= t < seen@.len() ==> freq_of(index.freq@, pair_key((#[trigger] seen@[t]).0, seen@[t].1)) >= 1,
            decreases n - i,
        {
            let l = chain.vals[i];
            let r = chain.vals[i + 1];
            let ghost f0 = index.freq@;
            let ghost l0 = index.lists@;
            let ghost seen0 = seen@;
            proof {
                lemma_count_bound(all_codes.take(i + 1), l, r);
            }
            add_pair(&mut index, &mut seen, (l, r), i);
            proof {
                let pre = all_codes.take(i + 1);
                let post = all_codes.take(i + 2);
                assert(post =~= pre + seq![r]);
                assert forall|l2: u32, r2: u32| #[trigger] freq_of(index.freq@, pair_key(l2, r2)) == pair_count(post, l2, r2) by {
                    lemma_count_concat(pre, seq![r], l2, r2);
                    assert(pair_count(seq![r], l2, r2) == 0);
                    assert(pre.last() == l);
                    assert(freq_of(f0, pair_key(l2, r2)) == pair_count(pre, l2, r2));
                    lemma_pair_key_injective(l2, r2, l, r);
                    if pair_key(l2, r2) != pair_key(l, r) {
                        assert(freq_of(index.freq@, pair_key(l2, r2)) == freq_of(f0, pair_key(l2, r2)));
                    }
                }
                assert forall|kk: u64, t: int|
                    index.lists@.contains_key(kk) && 0 <= t < index.lists@[kk]@.len() implies #[trigger] index.lists@[kk]@[t] < i + 1 by {
                    if kk != pair_key(l, r) {
                        assert(index.lists@[kk] == l0[kk]);
                    } else if t < index.lists@[kk]@.len() - 1 {
                        assert(index.lists@[kk]@[t] == l0[kk]@[t]);
                    }
                }
                assert forall|kk: u64| #[trigger] index.lists@.contains_key(kk) implies sorted(index.lists@[kk]@) && forall|t: int|
                    0 <= t < index.lists@[kk]@.len() ==> index.lists@[kk]@[t] < n by {
                    if kk == pair_key(l, r) && l0.contains_key(kk) {
                        assert forall|t: int| 0 <= t < l0[kk]@.len() implies l0[kk]@[t] < i by {}
                    }
                }
                assert forall|k: int| 0 <= k < i + 1 implies list_of(index.lists@, #[trigger] pair_key(all_codes[k], all_codes[k + 1])).contains(k as usize) by {
                    let kk = pair_key(all_codes[k], all_codes[k + 1]);
                    if k < i {
                        let t = choose|t: int| 0 <= t < list_of(l0, kk).len() && list_of(l0, kk)[t] == k as usize;
                        if kk == pair_key(l, r) {
                            assert(list_of(index.lists@, kk)[t] == k as usize);
                        } else {
                            assert(index.lists@[kk] == l0[kk]);
                        }
                    } else {
                        assert(list_of(index.lists@, kk).last() == i);
                    }
                }
                assert forall|l2: u32, r2: u32| #[trigger] index.freq@.dom().contains(pair_key(l2, r2)) implies l2 < next_id && r2 < next_id by {
                    if !f0.dom().contains(pair_key(l2, r2)) {
                        assert(pair_key(l2, r2) == pair_key(l, r));
                        lemma_pair_key_injective(l2, r2, l, r);
                    }
                }
                assert forall|l2: u32, r2: u32| #[trigger] index.lists@.dom().contains(pair_key(l2, r2)) implies l2 < next_id && r2 < next_id by {
                    if !l0.dom().contains(pair_key(l2, r2)) {
                        assert(pair_key(l2, r2) == pair_key(l, r));
                        lemma_pair_key_injective(l2, r2, l, r);
                    }
                }
                assert forall|l2: u32, r2: u32| #[trigger] index.freq@.contains_key(pair_key(l2, r2)) implies seen@.contains((l2, r2)) by {
                    if f0.contains_key(pair_key(l2, r2)) {
                        assert(seen0.contains((l2, r2)));
                        let t = choose|t: int| 0 <= t < seen0.len() && seen0[t] == (l2, r2);
                        assert(seen@[t] == (l2, r2));
                    } else {
                        assert(pair_key(l2, r2) == pair_key(l, r));
                        lemma_pair_key_injective(l2, r2, l, r);
                        assert(seen@.last() == (l2, r2));
                    }
                }
                assert forall|t: int| 0 <= t < seen@.len() implies freq_of(index.freq@, pair_key((#[trigger] seen@[t]).0, seen@[t].1)) >= 1 by {
                    if t < seen0.len() {
                        assert(seen@[t] == seen0[t]);
                    }
                }
            }
            i += 1;
        }
        proof {
            assert(all_codes.take(n as int) =~= all_codes);
            assert(i + 1 == n);
            assert forall|k: int| 0 <= k < all_codes.len() - 1 && None::<(u32, u32)> != Some((all_codes[k], all_codes[k + 1])) implies list_of(
                index.lists@,
                #[trigger] pair_key(all_codes[k], all_codes[k + 1]),
            ).contains(idx[k]) by {
                assert(idx[k] == k as usize);
                assert(list_of(index.lists@, pair_key(all_codes[k], all_codes[k + 1])).contains(k as usize));
            }
        }
        // One candidate per pair, with its count.
        let mut queue = new_queue();
        for t in 0..seen.len()
            invariant
                queue@ == entries_exact(seen@.take(t as int), all_codes),
                queue@.finite(),
                counts_exact(index.freq@, all_codes, None),
        {
            let (l, r) = seen[t];
            let c: usize = match index.freq.get(&key_of(l, r)) {
                Some(c) => *c,
                None => 0,
            };
            queue_add(&mut queue, (c as u64, l, r));
            proof {
                assert(c == freq_of(index.freq@, pair_key(l, r)));
                assert(c == pair_count(all_codes, l, r));
                assert(seen@.take(t + 1) =~= seen@.take(t as int).push((l, r)));
                assert(queue@ =~= entries_exact(seen@.take(t + 1), all_codes)) by {
                    assert forall|f: (u64, u32, u32)| #[trigger] queue@.contains(f) <==> entries_exact(seen@.take(t + 1), all_codes).contains(f) by {
                        let prev = entries_exact(seen@.take(t as int), all_codes);
                        if f == (c as u64, l, r) {
                            assert(seen@.take(t + 1)[t as int] == (l, r));
                        } else if prev.contains(f) {
                            let s0 = seen@.take(t as int);
                            let w = choose|w: int| 0 <= w < s0.len() && s0[w] == (f.1, f.2);
                            assert(seen@.take(t + 1)[w] == (f.1, f.2));
                        }
                        if seen@.take(t + 1).contains((f.1, f.2)) && f.0 == pair_count(all_codes, f.1, f.2) {
                            let s1 = seen@.take(t + 1);
                            let w = choose|w: int| 0 <= w < s1.len() && s1[w] == (f.1, f.2);
                            if w < t {
                                assert(seen@.take(t as int)[w] == (f.1, f.2));
                                assert(prev.contains(f));
                            } else {
                                assert((f.1, f.2) == (l, r));
                                assert(f == (c as u64, l, r));
                            }
                        }
                    }
                }
            }
        }
        proof {
            assert(seen@.take(seen@.len() as int) =~= seen@);
            assert forall|l: u32, r: u32|
                None::<(u32, u32)> != Some((l, r)) && #[trigger] freq_of(index.freq@, pair_key(l, r)) >= 1 implies queue@.contains(
                (freq_of(index.freq@, pair_key(l, r)) as u64, l, r),
            ) by {
                assert(index.freq@.contains_key(pair_key(l, r)));
                assert(freq_of(index.freq@, pair_key(l, r)) == pair_count(all_codes, l, r));
                assert(entries_exact(seen@, all_codes).contains((freq_of(index.freq@, pair_key(l, r)) as u64, l, r)));
            }
            assert(merges@ =~= t0.merges);
        }
        // Rounds of merging.
        let mut round: usize = 0;
        while round < num_merges
            invariant
                t0 == start(text@),
                2 <= n < usize::MAX,
                merges@.len() <= round,
                chain.vals@.len() == n,
                chain_wf(chain.vals@, chain.nxt@, chain.prv@, chain.alive@, idx),
                round <= num_merges,
                ({
                    let t = run(t0, round as nat);
                    &&& chain_seq(chain.vals@, idx) == t.seq
                    &&& next_id == t.next_id
                    &&& merges@ == t.merges
                    &&& vocab_chars(vocab@) == t.vocab
                    &&& counts_exact(index.freq@, t.seq, None)
                    &&& positions_recorded(index.lists@, t.seq, idx, None)
                    &&& tokens_below(t.seq, next_id as int)
                    &&& t.seq.len() + merges@.len() <= n
                    &&& t.seq.len() >= 1
                }),
                queue@.finite(),
                queued(queue@, index.freq@, None),
                keys_below(index.freq@.dom(), next_id as int),
                keys_below(index.lists@.dom(), next_id as int),
                lists_wf(index.lists@, n as nat),
                next_id as int == max_seen as int + 1 + merges@.len(),
                max_seen <= 0x10FFFF,
            decreases num_merges - round,
        {
            let ghost t = run(t0, round as nat);
            let ghost seq = t.seq;
            if next_id == u32::MAX {
                proof {
                    lemma_run_stops(t0, round as nat, num_merges as nat);
                }
                return Bpe { merges, vocab };
            }
            let selected = select_candidate(&mut queue, &index.freq, Ghost(seq));
            match selected {
                None => {
                    proof {
                        lemma_run_stops(t0, round as nat, num_merges as nat);
                    }
                    return Bpe { merges, vocab };
                },
                Some(e) => {
                    let (_count, a, b) = e;
                    proof {
                        assert(is_best(seq, a, b));
                        lemma_count_witness(seq, a, b);
                        let w = choose|w: int| occurs_at(seq, a, b, w);
                        assert(seq[w] < next_id && seq[w + 1] < next_id);
                        lemma_merge_len(seq, a, b, next_id);
                    }
                    let x = next_id;
                    next_id = next_id + 1;
                    let l_text = match vocab.get(&a) {
                        Some(v) => v.clone(),
                        None => String::new(),
                    };
                    let r_text = match vocab.get(&b) {
                        Some(v) => v.clone(),
                        None => String::new(),
                    };
                    let mut joined = l_text;
                    joined.append(r_text.as_str());
                    let ghost vocab0 = vocab@;
                    vocab.insert(x, joined);
                    proof {
                        assert(vocab_chars(vocab@) =~= t.vocab.insert(x, vocab_text(t.vocab, a) + vocab_text(t.vocab, b)));
                    }
                    let key = key_of(a, b);
                    let ghost lists_before = index.lists@;
                    let ghost freq_before = index.freq@;
                    let positions = match index.lists.remove(&key) {
                        Some(v) => v,
                        None => Vec::new(),
                    };
                    index.freq.remove(&key);
                    proof {
                        assert forall|l: u32, r: u32| Some((a, b)) != Some((l, r)) implies #[trigger] freq_of(index.freq@, pair_key(l, r)) == pair_count(seq, l, r) by {
                            assert(freq_of(freq_before, pair_key(l, r)) == pair_count(seq, l, r));
                            lemma_pair_key_injective(l, r, a, b);
                            assert(index.freq@ == freq_before.remove(pair_key(a, b)));
                        }
                        let pl = list_of(lists_before, pair_key(a, b));
                        assert(positions@ == pl);
                        assert forall|w: int| occurs_at(seq, a, b, w) implies positions@.contains(idx[w]) by {
                            assert(list_of(lists_before, pair_key(seq[w], seq[w + 1])).contains(idx[w]));
                        }
                        if lists_before.contains_key(pair_key(a, b)) {
                            assert(sorted(lists_before[pair_key(a, b)]@));
                        }
                        assert forall|w: int| 0 <= w < positions@.len() implies positions@[w] < n by {
                            assert(lists_before[pair_key(a, b)]@[w] < n);
                        }
                        assert(index.freq@.dom() =~= freq_before.dom().remove(pair_key(a, b)));
                        assert(index.lists@.dom() =~= lists_before.dom().remove(pair_key(a, b)));
                        assert forall|k: int| 0 <= k < seq.len() - 1 && Some((a, b)) != Some((seq[k], seq[k + 1])) implies list_of(
                            index.lists@,
                            #[trigger] pair_key(seq[k], seq[k + 1]),
                        ).contains(idx[k]) by {
                            lemma_pair_key_injective(seq[k], seq[k + 1], a, b);
                            assert(index.lists@ == lists_before.remove(pair_key(a, b)));
                            assert(list_of(index.lists@, pair_key(seq[k], seq[k + 1])) == list_of(lists_before, pair_key(seq[k], seq[k + 1])));
                        }
                        assert forall|l: u32, r: u32|
                            Some((a, b)) != Some((l, r)) && #[trigger] freq_of(index.freq@, pair_key(l, r)) >= 1 implies queue@.contains(
                            (freq_of(index.freq@, pair_key(l, r)) as u64, l, r),
                        ) by {
                            lemma_pair_key_injective(l, r, a, b);
                            assert(index.freq@ == freq_before.remove(pair_key(a, b)));
                            assert(freq_of(index.freq@, pair_key(l, r)) == freq_of(freq_before, pair_key(l, r)));
                        }
                    }
                    let idx_next = merge_round(&mut chain, &mut index, &mut queue, &positions, a, b, x, Ghost(idx));
                    let ghost merged = merge_seq(seq, a, b, x);
                    merges.push((Pair { l: a, r: b }, x));
                    proof {
                        idx = idx_next@;
                        assert(best_pair(seq) == Some((a, b)));
                        let t2 = step(t);
                        assert(t2.seq == merged);
                        assert(merges@ =~= t2.merges);
                        assert(vocab_chars(vocab@) == t2.vocab);
                        lemma_merge_bound(seq, a, b, x, x + 1);
                        lemma_merge_first(seq, a, b, x);
                        assert(run(t0, (round + 1) as nat) == t2);
                    }
                }
            }
            round += 1;
        }
        Bpe { merges, vocab }
    }
}

} // verus!
