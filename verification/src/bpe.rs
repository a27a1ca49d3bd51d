//! The merge table: encoding text into tokens and decoding tokens into text.

use std::collections::HashMap;

use vstd::prelude::*;

use crate::pair::{lemma_merge_removes_pair, merge_pass, merge_seq, pair_count, Pair};
use crate::text::{char_codes, char_of_code, char_string, codes_of, is_char_code, text_chars};

verus! {

broadcast use vstd::std_specs::hash::group_hash_axioms;

/// A trained byte-pair-encoding table: the merges in the order they were
/// learned, each a pair and the token that replaces it, and the text of every
/// token that the table knows.
pub struct Bpe {
    pub merges: Vec<(Pair, u32)>,
    pub vocab: HashMap<u32, String>,
}

/// A vocabulary with each string taken as its characters.
pub open spec fn vocab_chars(vocab: Map<u32, String>) -> Map<u32, Seq<char>> {
    vocab.map_values(|s: String| s@)
}

impl Bpe {
    /// The vocabulary as characters.
    pub open spec fn vocab_view(&self) -> Map<u32, Seq<char>> {
        vocab_chars(self.vocab@)
    }
}

/// The text of token `id`: its vocabulary entry; else the character with that
/// code; else nothing.
pub open spec fn token_text(vocab: Map<u32, Seq<char>>, id: u32) -> Seq<char> {
    if vocab.contains_key(id) {
        vocab[id]
    } else if is_char_code(id) {
        seq![id as char]
    } else {
        seq![]
    }
}

/// The texts of `tokens`, one after the other.
pub open spec fn decode_text(vocab: Map<u32, Seq<char>>, tokens: Seq<u32>) -> Seq<char>
    decreases tokens.len(),
{
    if tokens.len() == 0 {
        seq![]
    } else {
        token_text(vocab, tokens[0]) + decode_text(vocab, tokens.drop_first())
    }
}

/// `tokens` after each merge of `merges`, in order, has been applied to all of it.
pub open spec fn apply_merges(tokens: Seq<u32>, merges: Seq<(Pair, u32)>) -> Seq<u32>
    decreases merges.len(),
{
    if merges.len() == 0 {
        tokens
    } else {
        let m = merges.last();
        merge_seq(apply_merges(tokens, merges.drop_last()), m.0.l, m.0.r, m.1)
    }
}

/// The tokens of `text`: its character codes, then every merge in order.
pub open spec fn encode_tokens(merges: Seq<(Pair, u32)>, text: Seq<char>) -> Seq<u32> {
    apply_merges(char_codes(text), merges)
}

/// Encoding with no merges gives the code of every character, in order.
pub proof fn lemma_encode_no_merges(s: Seq<char>)
    ensures
        encode_tokens(Seq::<(Pair, u32)>::empty(), s).len() == s.len(),
        forall|i: int|
            0 <= i < s.len() ==> #[trigger] encode_tokens(Seq::<(Pair, u32)>::empty(), s)[i] == s[i] as u32,
{
}

/// Encoding with one more merge at the end of the table applies that merge,
/// from left to right, to what the table without it gives, for every text
/// however short and every table however long; afterwards the merged pair no
/// longer occurs, when its new token is neither of its halves.
pub proof fn lemma_encode_push(merges: Seq<(Pair, u32)>, p: Pair, x: u32, s: Seq<char>)
    ensures
        encode_tokens(merges.push((p, x)), s) == merge_seq(encode_tokens(merges, s), p.l, p.r, x),
        x != p.l && x != p.r ==> pair_count(encode_tokens(merges.push((p, x)), s), p.l, p.r) == 0,
{
    assert(merges.push((p, x)).drop_last() =~= merges);
    if x != p.l && x != p.r {
        lemma_merge_removes_pair(encode_tokens(merges, s), p.l, p.r, x);
    }
}

/// Every merge's token reads as its pair's two texts together.
pub open spec fn merges_consistent(vocab: Map<u32, Seq<char>>, merges: Seq<(Pair, u32)>) -> bool {
    forall|i: int|
        0 <= i < merges.len() ==> #[trigger] token_text(vocab, merges[i].1) == token_text(
            vocab,
            merges[i].0.l,
        ) + token_text(vocab, merges[i].0.r)
}

/// The token whose id is the code of `c` reads as `c`.
pub open spec fn spells_itself(vocab: Map<u32, Seq<char>>, c: char) -> bool {
    token_text(vocab, c as u32) == seq![c]
}

/// A single token decodes to its text.
pub proof fn lemma_decode_single(vocab: Map<u32, Seq<char>>, id: u32)
    ensures
        decode_text(vocab, seq![id]) == token_text(vocab, id),
{
    assert(seq![id].drop_first() =~= Seq::<u32>::empty());
    assert(decode_text(vocab, Seq::<u32>::empty()) == Seq::<char>::empty());
    assert(token_text(vocab, id) + Seq::<char>::empty() =~= token_text(vocab, id));
}

/// Decoding one more token appends its text.
pub proof fn lemma_decode_push(vocab: Map<u32, Seq<char>>, tokens: Seq<u32>, id: u32)
    ensures
        decode_text(vocab, tokens.push(id)) == decode_text(vocab, tokens) + token_text(vocab, id),
    decreases tokens.len(),
{
    let t = token_text(vocab, id);
    if tokens.len() == 0 {
        lemma_decode_single(vocab, id);
        assert(tokens.push(id) =~= seq![id]);
        assert(Seq::<char>::empty() + t =~= t);
    } else {
        let h = token_text(vocab, tokens[0]);
        let d = decode_text(vocab, tokens.drop_first());
        lemma_decode_push(vocab, tokens.drop_first(), id);
        assert(tokens.push(id).drop_first() =~= tokens.drop_first().push(id));
        assert(h + (d + t) =~= (h + d) + t);
    }
}

/// Decoding a concatenation concatenates the decodings.
pub proof fn lemma_decode_concat(vocab: Map<u32, Seq<char>>, a: Seq<u32>, b: Seq<u32>)
    ensures
        decode_text(vocab, a + b) == decode_text(vocab, a) + decode_text(vocab, b),
    decreases a.len(),
{
    if a.len() == 0 {
        assert(a + b =~= b);
    } else {
        lemma_decode_concat(vocab, a.drop_first(), b);
        assert((a + b).drop_first() =~= a.drop_first() + b);
    }
}

/// A merge whose token reads as its pair's two texts leaves the decoded text unchanged.
pub proof fn lemma_decode_merge(vocab: Map<u32, Seq<char>>, tokens: Seq<u32>, l: u32, r: u32, x: u32)
    requires
        token_text(vocab, x) == token_text(vocab, l) + token_text(vocab, r),
    ensures
        decode_text(vocab, merge_seq(tokens, l, r, x)) == decode_text(vocab, tokens),
    decreases tokens.len(),
{
    if tokens.len() == 0 {
    } else if tokens.len() >= 2 && tokens[0] == l && tokens[1] == r {
        let rest = tokens.subrange(2, tokens.len() as int);
        lemma_decode_merge(vocab, rest, l, r, x);
        lemma_decode_concat(vocab, seq![x], merge_seq(rest, l, r, x));
        assert(tokens.drop_first().drop_first() =~= rest);
        assert(seq![x].drop_first() =~= Seq::<u32>::empty());
        let tl = token_text(vocab, l);
        let tr = token_text(vocab, r);
        let d = decode_text(vocab, rest);
        lemma_decode_single(vocab, x);
        assert(tokens.drop_first()[0] == r);
        assert(decode_text(vocab, tokens.drop_first()) == tr + decode_text(
            vocab,
            tokens.drop_first().drop_first(),
        ));
        assert(decode_text(vocab, tokens) == tl + decode_text(vocab, tokens.drop_first()));
        assert(tl + (tr + d) =~= (tl + tr) + d);
    } else {
        let rest = tokens.drop_first();
        lemma_decode_merge(vocab, rest, l, r, x);
        lemma_decode_concat(vocab, seq![tokens[0]], merge_seq(rest, l, r, x));
        assert(seq![tokens[0]].drop_first() =~= Seq::<u32>::empty());
        lemma_decode_single(vocab, tokens[0]);
    }
}

/// Text whose every character reads as itself decodes from its codes.
pub proof fn lemma_decode_codes(vocab: Map<u32, Seq<char>>, s: Seq<char>)
    requires
        forall|i: int| 0 <= i < s.len() ==> spells_itself(vocab, #[trigger] s[i]),
    ensures
        decode_text(vocab, char_codes(s)) == s,
    decreases s.len(),
{
    if s.len() > 0 {
        assert(spells_itself(vocab, s[0]));
        lemma_decode_codes(vocab, s.drop_first());
        assert(char_codes(s).drop_first() =~= char_codes(s.drop_first()));
        assert(s =~= seq![s[0]] + s.drop_first());
    }
}

/// Applying consistent merges keeps the decoded text.
pub proof fn lemma_decode_apply_merges(
    vocab: Map<u32, Seq<char>>,
    tokens: Seq<u32>,
    merges: Seq<(Pair, u32)>,
)
    requires
        merges_consistent(vocab, merges),
    ensures
        decode_text(vocab, apply_merges(tokens, merges)) == decode_text(vocab, tokens),
    decreases merges.len(),
{
    if merges.len() > 0 {
        let m = merges.last();
        assert(merges_consistent(vocab, merges.drop_last())) by {
            assert forall|i: int| 0 <= i < merges.drop_last().len() implies #[trigger] token_text(
                vocab,
                merges.drop_last()[i].1,
            ) == token_text(vocab, merges.drop_last()[i].0.l) + token_text(
                vocab,
                merges.drop_last()[i].0.r,
            ) by {
                assert(merges.drop_last()[i] == merges[i]);
                assert(token_text(vocab, merges[i].1) == token_text(vocab, merges[i].0.l)
                    + token_text(vocab, merges[i].0.r));
            }
        }
        assert(token_text(vocab, merges[merges.len() - 1].1) == token_text(
            vocab,
            merges[merges.len() - 1].0.l,
        ) + token_text(vocab, merges[merges.len() - 1].0.r));
        lemma_decode_apply_merges(vocab, tokens, merges.drop_last());
        lemma_decode_merge(vocab, apply_merges(tokens, merges.drop_last()), m.0.l, m.0.r, m.1);
    }
}

/// Round trip: with consistent merges, decoding the encoding of a text gives
/// the text back, provided each of its characters reads as itself.
pub proof fn lemma_round_trip(vocab: Map<u32, Seq<char>>, merges: Seq<(Pair, u32)>, s: Seq<char>)
    requires
        merges_consistent(vocab, merges),
        forall|i: int| 0 <= i < s.len() ==> spells_itself(vocab, #[trigger] s[i]),
    ensures
        decode_text(vocab, encode_tokens(merges, s)) == s,
{
    lemma_decode_apply_merges(vocab, char_codes(s), merges);
    lemma_decode_codes(vocab, s);
}

impl Bpe {
    /// Encodes `text`: its character codes, then each merge applied in order.
    pub fn encode(&self, text: &str) -> (tokens: Vec<u32>)
        ensures
            tokens@ == encode_tokens(self.merges@, text@),
    {
        let chars = text_chars(text);
        let mut tokens = codes_of(&chars);
        let ghost codes = char_codes(text@);
        for i in 0..self.merges.len()
            invariant
                tokens@ == apply_merges(codes, self.merges@.take(i as int)),
        {
            let (pair, new_id) = self.merges[i];
            assert(self.merges@.take(i + 1).drop_last() =~= self.merges@.take(i as int));
            tokens = merge_pass(&tokens, pair, new_id);
        }
        assert(self.merges@.take(self.merges@.len() as int) =~= self.merges@);
        tokens
    }

    /// The concatenated texts of `tokens`.
    pub fn decode(&self, tokens: &[u32]) -> (text: String)
        ensures
            text@ == decode_text(self.vocab_view(), tokens@),
    {
        let mut text = String::new();
        for i in 0..tokens.len()
            invariant
                text@ == decode_text(self.vocab_view(), tokens@.take(i as int)),
        {
            let piece = self.token_str(tokens[i]);
            proof {
                lemma_decode_push(self.vocab_view(), tokens@.take(i as int), tokens@[i as int]);
                assert(tokens@.take(i + 1) =~= tokens@.take(i as int).push(tokens@[i as int]));
            }
            text.append(piece.as_str());
        }
        assert(tokens@.take(tokens@.len() as int) =~= tokens@);
        text
    }

    /// Whether `tokens` decode to exactly `text`.
    pub fn decodes_to(&self, tokens: &[u32], text: &str) -> (same: bool)
        ensures
            same == (decode_text(self.vocab_view(), tokens@) == text@),
    {
        let decoded = self.decode(tokens);
        let expected = text.to_owned();
        decoded == expected
    }

    /// The text of token `id`: its vocabulary entry, else the character with
    /// that code, else the empty string.
    pub fn token_str(&self, id: u32) -> (s: String)
        ensures
            s@ == token_text(self.vocab_view(), id),
    {
        match self.vocab.get(&id) {
            Some(s) => s.clone(),
            None => match char_of_code(id) {
                Some(c) => {
                    proof {
                        vstd::utf8::char_u32_cast(c, id);
                    }
                    char_string(c)
                },
                None => String::new(),
            },
        }
    }
}

} // verus!
