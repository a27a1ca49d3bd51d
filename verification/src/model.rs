//! What training computes, stated over sequences, sets and maps.
//!
//! Training keeps the current token sequence. Each round takes the best pair
//! of the sequence: the one that occurs most often, ties going to the greater
//! pair (left token first, then right token). It replaces that pair from left
//! to right by a new token, whose text is the texts of the two tokens
//! together. Training stops when no pair occurs, that is when fewer than two
//! tokens are left, or when no token id is left to give out.

use vstd::prelude::*;

use crate::pair::{lemma_count_positive, lemma_count_witness, merge_seq, occurs_at, pair_count, Pair};
use crate::text::char_codes;

verus! {

/// In `seq`, the pair `(l, r)` outranks `(l2, r2)`: it occurs more often, or
/// as often and is the greater pair.
pub open spec fn outranks(seq: Seq<u32>, l: u32, r: u32, l2: u32, r2: u32) -> bool {
    let c = pair_count(seq, l, r);
    let c2 = pair_count(seq, l2, r2);
    c > c2 || (c == c2 && (l > l2 || (l == l2 && r > r2)))
}

/// `(l, r)` occurs in `seq` and no pair that occurs there outranks it.
pub open spec fn is_best(seq: Seq<u32>, l: u32, r: u32) -> bool {
    &&& pair_count(seq, l, r) >= 1
    &&& forall|l2: u32, r2: u32|
        #[trigger] pair_count(seq, l2, r2) >= 1 ==> !outranks(seq, l2, r2, l, r)
}

/// The pair that the next round merges, if any pair occurs.
pub open spec fn best_pair(seq: Seq<u32>) -> Option<(u32, u32)> {
    if exists|p: (u32, u32)| is_best(seq, p.0, p.1) {
        Some(choose|p: (u32, u32)| is_best(seq, p.0, p.1))
    } else {
        None
    }
}

/// The best pair is the only one.
pub proof fn lemma_best_unique(seq: Seq<u32>, l: u32, r: u32)
    requires
        is_best(seq, l, r),
    ensures
        best_pair(seq) == Some((l, r)),
{
    let w = (l, r);
    assert(is_best(seq, w.0, w.1));
    let p = choose|p: (u32, u32)| is_best(seq, p.0, p.1);
    assert(is_best(seq, p.0, p.1));
    assert(!outranks(seq, p.0, p.1, l, r));
    assert(!outranks(seq, l, r, p.0, p.1));
    assert(p == w);
}

/// The pair starting at index `i` of `seq`.
pub open spec fn pair_at(seq: Seq<u32>, i: int) -> (u32, u32) {
    (seq[i], seq[i + 1])
}

/// The pair that ranks first among those starting at an index up to `k`.
pub open spec fn scan_best(seq: Seq<u32>, k: int) -> (u32, u32)
    decreases k,
{
    if k <= 0 {
        pair_at(seq, 0)
    } else {
        let p = scan_best(seq, k - 1);
        let q = pair_at(seq, k);
        if outranks(seq, q.0, q.1, p.0, p.1) {
            q
        } else {
            p
        }
    }
}

proof fn lemma_scan_best(seq: Seq<u32>, k: int)
    requires
        0 <= k < seq.len() - 1,
    ensures
        exists|i: int| 0 <= i <= k && scan_best(seq, k) == pair_at(seq, i),
        forall|i: int|
            0 <= i <= k ==> !outranks(
                seq,
                (#[trigger] pair_at(seq, i)).0,
                pair_at(seq, i).1,
                scan_best(seq, k).0,
                scan_best(seq, k).1,
            ),
    decreases k,
{
    if k == 0 {
        assert(scan_best(seq, 0) == pair_at(seq, 0));
    } else {
        lemma_scan_best(seq, k - 1);
        let p = scan_best(seq, k - 1);
        let q = pair_at(seq, k);
        if outranks(seq, q.0, q.1, p.0, p.1) {
            assert(scan_best(seq, k) == q);
        } else {
            assert(scan_best(seq, k) == p);
            let i = choose|i: int| 0 <= i <= k - 1 && p == pair_at(seq, i);
            assert(0 <= i <= k && scan_best(seq, k) == pair_at(seq, i));
        }
    }
}

/// A best pair exists exactly when the sequence has at least two tokens.
pub proof fn lemma_best_exists(seq: Seq<u32>)
    ensures
        best_pair(seq) is Some <==> seq.len() >= 2,
{
    if seq.len() >= 2 {
        let k = seq.len() - 2;
        lemma_scan_best(seq, k);
        let b = scan_best(seq, k);
        let i = choose|i: int| 0 <= i <= k && b == pair_at(seq, i);
        assert(occurs_at(seq, b.0, b.1, i));
        lemma_count_positive(seq, b.0, b.1, i);
        assert forall|l2: u32, r2: u32| #[trigger] pair_count(seq, l2, r2) >= 1 implies !outranks(
            seq,
            l2,
            r2,
            b.0,
            b.1,
        ) by {
            lemma_count_witness(seq, l2, r2);
            let j = choose|j: int| occurs_at(seq, l2, r2, j);
            assert(pair_at(seq, j) == (l2, r2));
        }
        assert(is_best(seq, b.0, b.1));
    } else {
        if best_pair(seq) is Some {
            let p = choose|p: (u32, u32)| is_best(seq, p.0, p.1);
            assert(pair_count(seq, p.0, p.1) == 0);
        }
    }
}

/// The state of training after some rounds.
pub struct Training {
    pub seq: Seq<u32>,
    pub next_id: u32,
    pub merges: Seq<(Pair, u32)>,
    pub vocab: Map<u32, Seq<char>>,
}

/// The vocabulary entry of `id`, empty where there is none.
pub open spec fn vocab_text(vocab: Map<u32, Seq<char>>, id: u32) -> Seq<char> {
    if vocab.contains_key(id) {
        vocab[id]
    } else {
        seq![]
    }
}

/// One round of training; nothing changes once no pair occurs or the last
/// token id has been reached.
pub open spec fn step(t: Training) -> Training {
    if t.next_id == u32::MAX {
        t
    } else {
        match best_pair(t.seq) {
            None => t,
            Some(p) => {
                let x = t.next_id;
                Training {
                    seq: merge_seq(t.seq, p.0, p.1, x),
                    next_id: (x + 1) as u32,
                    merges: t.merges.push((Pair { l: p.0, r: p.1 }, x)),
                    vocab: t.vocab.insert(x, vocab_text(t.vocab, p.0) + vocab_text(t.vocab, p.1)),
                }
            },
        }
    }
}

/// `k` rounds of training.
pub open spec fn run(t: Training, k: nat) -> Training
    decreases k,
{
    if k == 0 {
        t
    } else {
        step(run(t, (k - 1) as nat))
    }
}

/// The greatest of `codes`, 0 for none.
pub open spec fn max_code(codes: Seq<u32>) -> u32
    decreases codes.len(),
{
    if codes.len() == 0 {
        0
    } else {
        let m = max_code(codes.drop_last());
        if codes.last() > m {
            codes.last()
        } else {
            m
        }
    }
}

/// Each character of `text` as the text of the token whose id is its code.
pub open spec fn initial_vocab(text: Seq<char>) -> Map<u32, Seq<char>>
    decreases text.len(),
{
    if text.len() == 0 {
        Map::empty()
    } else {
        initial_vocab(text.drop_last()).insert(text.last() as u32, seq![text.last()])
    }
}

/// Training before its first round: new tokens start one above the greatest
/// character code of the text.
pub open spec fn start(text: Seq<char>) -> Training {
    Training {
        seq: char_codes(text),
        next_id: (max_code(char_codes(text)) + 1) as u32,
        merges: seq![],
        vocab: initial_vocab(text),
    }
}

/// Training on `text` for at most `rounds` rounds.
pub open spec fn trained(text: Seq<char>, rounds: nat) -> Training {
    run(start(text), rounds)
}

/// Once a round changes nothing, further rounds change nothing.
pub proof fn lemma_run_stops(t: Training, k: nat, k2: nat)
    requires
        k <= k2,
        step(run(t, k)) == run(t, k),
    ensures
        run(t, k2) == run(t, k),
    decreases k2,
{
    if k2 > k {
        lemma_run_stops(t, k, (k2 - 1) as nat);
    }
}

/// The largest code is at least every code.
pub proof fn lemma_max_code(codes: Seq<u32>)
    ensures
        forall|i: int| 0 <= i < codes.len() ==> codes[i] <= max_code(codes),
    decreases codes.len(),
{
    if codes.len() > 0 {
        lemma_max_code(codes.drop_last());
        assert forall|i: int| 0 <= i < codes.len() implies codes[i] <= max_code(codes) by {
            if i < codes.len() - 1 {
                assert(codes[i] == codes.drop_last()[i]);
            }
        }
    }
}

} // verus!
