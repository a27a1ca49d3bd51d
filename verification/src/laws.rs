//! What holds of every trained table: its merges read as the texts of their
//! pairs, new tokens are numbered on from one above the text's greatest
//! character code, encoding the training text gives the sequence that
//! training ended with, and more rounds only extend a table; hence decoding
//! what it encodes gives text back.

use vstd::prelude::*;

use crate::bpe::{
    apply_merges, decode_text, encode_tokens, lemma_round_trip, merges_consistent, spells_itself,
    token_text,
};
use crate::model::{
    best_pair, initial_vocab, is_best, max_code, outranks, run, start, step, trained, Training,
};
use crate::pair::{
    lemma_count_witness, lemma_merge_len, lemma_merge_tokens, merge_seq, occurs_at, pair_count, Pair,
};
use crate::text::char_codes;

verus! {

/// The id of the first token that training creates for `text`.
pub open spec fn first_new_id(text: Seq<char>) -> int {
    max_code(char_codes(text)) + 1
}

/// No character of `s` has the code of a token created by `merges`.
pub open spec fn avoids_new_ids(s: Seq<char>, merges: Seq<(Pair, u32)>) -> bool {
    forall|i: int, j: int|
        #![trigger s[i], merges[j]]
        0 <= i < s.len() && 0 <= j < merges.len() ==> s[i] as u32 != merges[j].1
}

/// What every state of training on `text` satisfies.
pub open spec fn training_ok(text: Seq<char>, t: Training) -> bool {
    let base = first_new_id(text);
    &&& t.seq == apply_merges(char_codes(text), t.merges)
    &&& t.next_id == base + t.merges.len()
    &&& t.seq.len() + t.merges.len() <= text.len()
    &&& t.seq.len() >= 1 || text.len() == 0
    &&& forall|i: int| 0 <= i < t.seq.len() ==> t.vocab.contains_key(#[trigger] t.seq[i])
    &&& forall|k: u32| #[trigger] t.vocab.contains_key(k) ==> k < t.next_id
    &&& forall|k: u32|
        #[trigger] t.vocab.contains_key(k) && k < base ==> t.vocab[k] == seq![k as char]
    &&& forall|j: int|
        0 <= j < t.merges.len() ==> (#[trigger] t.merges[j]).1 == base + j && t.merges[j].0.l
            < t.merges[j].1 && t.merges[j].0.r < t.merges[j].1
    &&& forall|j: int| 0 <= j < t.merges.len() ==> t.vocab.contains_key((#[trigger] t.merges[j]).1)
    &&& merges_consistent(t.vocab, t.merges)
}

proof fn lemma_initial_vocab(text: Seq<char>)
    ensures
        forall|k: u32| #[trigger]
            initial_vocab(text).contains_key(k) ==> k <= max_code(char_codes(text)) && initial_vocab(
                text,
            )[k] == seq![k as char],
        forall|i: int|
            0 <= i < text.len() ==> initial_vocab(text).contains_key(#[trigger] text[i] as u32),
    decreases text.len(),
{
    if text.len() > 0 {
        let prev = text.drop_last();
        lemma_initial_vocab(prev);
        assert(char_codes(text).drop_last() =~= char_codes(prev));
        vstd::utf8::char_u32_cast(text.last(), text.last() as u32);
        let codes = char_codes(text);
        assert(codes.last() == text.last() as u32);
        assert(max_code(codes) >= max_code(char_codes(prev)));
        assert(max_code(codes) >= text.last() as u32);
        assert forall|k: u32| #[trigger] initial_vocab(text).contains_key(k) implies k <= max_code(
            char_codes(text),
        ) && initial_vocab(text)[k] == seq![k as char] by {
            if k != text.last() as u32 {
                assert(initial_vocab(prev).contains_key(k));
            }
        }
        assert forall|i: int| 0 <= i < text.len() implies initial_vocab(text).contains_key(
            #[trigger] text[i] as u32,
        ) by {
            if i < text.len() - 1 {
                assert(text[i] == prev[i]);
            }
        }
    }
}

proof fn lemma_training_start(text: Seq<char>)
    ensures
        training_ok(text, start(text)),
{
    let t = start(text);
    lemma_initial_vocab(text);
    crate::model::lemma_max_code(char_codes(text));
    assert forall|i: int| 0 <= i < t.seq.len() implies t.vocab.contains_key(#[trigger] t.seq[i]) by {
        assert(t.seq[i] == text[i] as u32);
    }
    assert(t.next_id == first_new_id(text)) by {
        assert forall|i: int| 0 <= i < text.len() implies #[trigger] char_codes(text)[i] <= 0x10FFFF by {
            vstd::utf8::char_is_scalar(text[i]);
        }
        lemma_max_code_bound(char_codes(text), 0x10FFFF);
    }
}

/// The greatest code is within any bound that every code is within.
proof fn lemma_max_code_bound(codes: Seq<u32>, bound: u32)
    requires
        forall|i: int| 0 <= i < codes.len() ==> #[trigger] codes[i] <= bound,
    ensures
        max_code(codes) <= bound,
    decreases codes.len(),
{
    if codes.len() > 0 {
        assert forall|i: int| 0 <= i < codes.drop_last().len() implies #[trigger] codes.drop_last()[i]
            <= bound by {
            assert(codes.drop_last()[i] == codes[i]);
        }
        lemma_max_code_bound(codes.drop_last(), bound);
    }
}

proof fn lemma_training_step(text: Seq<char>, t: Training)
    requires
        training_ok(text, t),
    ensures
        training_ok(text, step(t)),
        step(t).merges.len() <= t.merges.len() + 1,
{
    if t.next_id != u32::MAX {
    match best_pair(t.seq) {
        None => {},
        Some(p) => {
            assert(is_best(t.seq, p.0, p.1));
            let (a, b) = p;
            let x = t.next_id;
            let base = first_new_id(text);
            lemma_count_witness(t.seq, a, b);
            let w = choose|w: int| occurs_at(t.seq, a, b, w);
            assert(t.vocab.contains_key(t.seq[w]) && t.vocab.contains_key(t.seq[w + 1]));
            assert(a < x && b < x);
            lemma_merge_len(t.seq, a, b, x);
            let t2 = step(t);
            let v = t.vocab;
            let v2 = t2.vocab;
            assert(t2.merges.drop_last() =~= t.merges);
            assert(t2.seq == apply_merges(char_codes(text), t2.merges));
            lemma_merge_tokens(t.seq, a, b, x, |tok: u32| v2.contains_key(tok));
            assert forall|j: int| 0 <= j < t2.merges.len() implies #[trigger] token_text(
                v2,
                t2.merges[j].1,
            ) == token_text(v2, t2.merges[j].0.l) + token_text(v2, t2.merges[j].0.r) by {
                if j < t.merges.len() {
                    assert(t2.merges[j] == t.merges[j]);
                    assert(token_text(v, t.merges[j].1) == token_text(v, t.merges[j].0.l) + token_text(
                        v,
                        t.merges[j].0.r,
                    ));
                }
            }
            assert forall|j: int| 0 <= j < t2.merges.len() implies (#[trigger] t2.merges[j]).1
                == base + j && t2.merges[j].0.l < t2.merges[j].1 && t2.merges[j].0.r
                < t2.merges[j].1 by {
                if j < t.merges.len() {
                    assert(t2.merges[j] == t.merges[j]);
                }
            }
            assert forall|j: int| 0 <= j < t2.merges.len() implies v2.contains_key(
                (#[trigger] t2.merges[j]).1,
            ) by {
                if j < t.merges.len() {
                    assert(t2.merges[j] == t.merges[j]);
                }
            }
            if merge_seq(t.seq, a, b, x).len() == 0 {
                crate::pair::lemma_merge_first(t.seq, a, b, x);
            }
        },
    }
    }
}

/// Every state of training on `text` satisfies `training_ok`.
pub proof fn lemma_training_ok(text: Seq<char>, rounds: nat)
    requires
    ensures
        training_ok(text, trained(text, rounds)),
        trained(text, rounds).merges.len() <= rounds,
    decreases rounds,
{
    if rounds == 0 {
        lemma_training_start(text);
    } else {
        lemma_training_ok(text, (rounds - 1) as nat);
        lemma_training_step(text, run(start(text), (rounds - 1) as nat));
    }
}

/// Each learned merge is the most frequent pair of what the merges before
/// it make of the training text, and among pairs as frequent it is the
/// greatest: left token first, then right token.
pub proof fn lemma_merge_is_most_frequent(text: Seq<char>, rounds: nat, k: int)
    requires
        0 <= k < trained(text, rounds).merges.len(),
    ensures
        ({
            let ms = trained(text, rounds).merges;
            let before = encode_tokens(ms.take(k), text);
            let p = ms[k].0;
            &&& pair_count(before, p.l, p.r) >= 1
            &&& forall|l: u32, r: u32| #[trigger]
                pair_count(before, l, r) <= pair_count(before, p.l, p.r)
            &&& forall|l: u32, r: u32| #[trigger]
                pair_count(before, l, r) == pair_count(before, p.l, p.r) ==> l < p.l || (l == p.l
                    && r <= p.r)
        }),
    decreases rounds,
{
    let r = (rounds - 1) as nat;
    let t = trained(text, r);
    let ms = trained(text, rounds).merges;
    assert(rounds > 0);
    assert(trained(text, rounds) == step(t));
    lemma_training_ok(text, r);
    if step(t) == t || k < t.merges.len() {
        if step(t) != t {
            assert(ms.take(k) =~= t.merges.take(k));
            assert(ms[k] == t.merges[k]);
        }
        lemma_merge_is_most_frequent(text, r, k);
    } else {
        let bp = best_pair(t.seq)->Some_0;
        assert(is_best(t.seq, bp.0, bp.1));
        assert(ms.take(k) =~= t.merges);
        assert(ms[k].0 == Pair { l: bp.0, r: bp.1 });
        let before = encode_tokens(ms.take(k), text);
        assert(before == t.seq);
        assert forall|l: u32, r2: u32| #[trigger] pair_count(before, l, r2) <= pair_count(before, bp.0, bp.1)
            && (pair_count(before, l, r2) == pair_count(before, bp.0, bp.1) ==> l < bp.0 || (l == bp.0
            && r2 <= bp.1)) by {
            if pair_count(t.seq, l, r2) >= 1 {
                assert(!outranks(t.seq, l, r2, bp.0, bp.1));
            }
        }
    }
}

/// Encoding the training text with the trained merges gives the sequence
/// that training ended with.
pub proof fn lemma_encode_training_text(text: Seq<char>, rounds: nat)
    requires
    ensures
        encode_tokens(trained(text, rounds).merges, text) == trained(text, rounds).seq,
        encode_tokens(trained(text, rounds).merges, text).len() + trained(text, rounds).merges.len()
            <= text.len(),
{
    lemma_training_ok(text, rounds);
}

/// More rounds only add to a table: the merges learned with a smaller budget
/// come first among those learned with a larger one, and the smaller table's
/// vocabulary is part of the larger one's.
pub proof fn lemma_budget_prefix(text: Seq<char>, k1: nat, k2: nat)
    requires
        k1 <= k2,
    ensures
        trained(text, k1).merges.is_prefix_of(trained(text, k2).merges),
        trained(text, k1).vocab.submap_of(trained(text, k2).vocab),
    decreases k2,
{
    if k2 > k1 {
        let k = (k2 - 1) as nat;
        lemma_budget_prefix(text, k1, k);
        lemma_training_ok(text, k);
        let t0 = trained(text, k1);
        let t = trained(text, k);
        let t2 = trained(text, k2);
        assert(t2 == step(t));
        assert(t.merges.is_prefix_of(t2.merges)) by {
            if t2 != t {
                assert(t2.merges.subrange(0, t.merges.len() as int) =~= t.merges);
            } else {
                assert(t.merges.subrange(0, t.merges.len() as int) =~= t.merges);
            }
        }
        assert(t.vocab.submap_of(t2.vocab)) by {
            if t2 != t {
                assert(!t.vocab.contains_key(t.next_id));
            }
        }
        assert(t0.merges.is_prefix_of(t2.merges)) by {
            assert(t2.merges.subrange(0, t0.merges.len() as int) =~= t.merges.subrange(
                0,
                t0.merges.len() as int,
            ));
        }
    }
}

/// Round trip on a trained table: decoding the encoding of any text gives it
/// back, as long as none of its characters has the code of a token that
/// training created.
pub proof fn lemma_trained_round_trip(text: Seq<char>, rounds: nat, s: Seq<char>)
    requires
        avoids_new_ids(s, trained(text, rounds).merges),
    ensures
        decode_text(trained(text, rounds).vocab, encode_tokens(trained(text, rounds).merges, s)) == s,
{
    let t = trained(text, rounds);
    lemma_training_ok(text, rounds);
    let base = first_new_id(text);
    assert forall|i: int| 0 <= i < s.len() implies spells_itself(t.vocab, #[trigger] s[i]) by {
        let c = s[i];
        let k = c as u32;
        vstd::utf8::char_u32_cast(c, k);
        vstd::utf8::char_is_scalar(c);
        if t.vocab.contains_key(k) {
            if k >= base {
                let j = k - base;
                assert(0 <= j < t.merges.len());
                assert(t.merges[j].1 == k);
            }
        }
    }
    lemma_round_trip(t.vocab, t.merges, s);
}

/// Round trip on the training text itself.
pub proof fn lemma_round_trip_on_corpus(text: Seq<char>, rounds: nat)
    requires
    ensures
        decode_text(trained(text, rounds).vocab, encode_tokens(trained(text, rounds).merges, text))
            == text,
{
    let t = trained(text, rounds);
    lemma_training_ok(text, rounds);
    crate::model::lemma_max_code(char_codes(text));
    assert forall|i: int, j: int| 0 <= i < text.len() && 0 <= j < t.merges.len() implies #[trigger] text[i] as u32
        != #[trigger] t.merges[j].1 by {
        assert(char_codes(text)[i] == text[i] as u32);
    }
    lemma_trained_round_trip(text, rounds, text);
}

} // verus!
