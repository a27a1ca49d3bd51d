//! The binary file format of a table:
//!
//! ```text
//! magic       8 bytes  "BPE" then 0, 0, 0, 0, 1
//! num_vocab   u64, little endian
//! vocab[i]    u32 id, u32 byte length, that many bytes of UTF-8
//! num_merges  u64, little endian
//! merges[i]   u32 left, u32 right, u32 new id
//! ```
//!
//! Bytes after the last merge are ignored when reading.

use std::collections::HashMap;

use vstd::bytes::{
    spec_u32_from_le_bytes, spec_u32_to_le_bytes, spec_u64_from_le_bytes, spec_u64_to_le_bytes,
    u32_from_le_bytes, u32_to_le_bytes, u64_from_le_bytes, u64_to_le_bytes,
};
use vstd::prelude::*;
use vstd::std_specs::iter::IteratorSpec;
use vstd::utf8::{decode_utf8, encode_utf8, valid_utf8};

use crate::bpe::{vocab_chars, Bpe};
use crate::pair::Pair;
use crate::text::utf8_text;

verus! {

broadcast use {vstd::std_specs::hash::group_hash_axioms, vstd::string::group_string_axioms};

/// Why a table could not be read.
#[derive(Debug, Clone, Copy, PartialEq, Eq, Structural)]
pub enum LoadError {
    /// The data ends before the table does.
    Truncated,
    /// The data does not start with the table's magic bytes.
    BadMagic,
    /// A vocabulary entry is not valid UTF-8.
    InvalidUtf8,
}

/// The first eight bytes of every table.
pub open spec fn magic() -> Seq<u8> {
    seq![0x42u8, 0x50u8, 0x45u8, 0u8, 0u8, 0u8, 0u8, 1u8]
}

/// One vocabulary entry: id, byte length (kept to 32 bits), UTF-8 bytes.
pub open spec fn entry_bytes(id: u32, text: Seq<char>) -> Seq<u8> {
    let b = encode_utf8(text);
    spec_u32_to_le_bytes(id) + spec_u32_to_le_bytes(b.len() as u32) + b
}

/// The vocabulary entries, one after the other.
pub open spec fn entries_bytes(entries: Seq<(u32, Seq<char>)>) -> Seq<u8>
    decreases entries.len(),
{
    if entries.len() == 0 {
        seq![]
    } else {
        entry_bytes(entries[0].0, entries[0].1) + entries_bytes(entries.drop_first())
    }
}

/// One merge: left token, right token, new token.
pub open spec fn merge_bytes(m: (Pair, u32)) -> Seq<u8> {
    spec_u32_to_le_bytes(m.0.l) + spec_u32_to_le_bytes(m.0.r) + spec_u32_to_le_bytes(m.1)
}

/// The merges, one after the other.
pub open spec fn merges_bytes(merges: Seq<(Pair, u32)>) -> Seq<u8>
    decreases merges.len(),
{
    if merges.len() == 0 {
        seq![]
    } else {
        merge_bytes(merges[0]) + merges_bytes(merges.drop_first())
    }
}

/// One more entry at the end adds its bytes at the end.
pub proof fn lemma_entries_bytes_push(entries: Seq<(u32, Seq<char>)>, e: (u32, Seq<char>))
    ensures
        entries_bytes(entries.push(e)) == entries_bytes(entries) + entry_bytes(e.0, e.1),
    decreases entries.len(),
{
    if entries.len() == 0 {
        assert(entries.push(e).drop_first() =~= Seq::<(u32, Seq<char>)>::empty());
        assert(entries_bytes(entries.push(e).drop_first()) == Seq::<u8>::empty());
        assert(entries.push(e)[0] == e);
        assert(entry_bytes(e.0, e.1) + Seq::<u8>::empty() =~= Seq::<u8>::empty() + entry_bytes(e.0, e.1));
    } else {
        lemma_entries_bytes_push(entries.drop_first(), e);
        assert(entries.push(e).drop_first() =~= entries.drop_first().push(e));
        assert(entries.push(e)[0] == entries[0]);
        let h = entry_bytes(entries[0].0, entries[0].1);
        assert(h + (entries_bytes(entries.drop_first()) + entry_bytes(e.0, e.1)) =~= (h
            + entries_bytes(entries.drop_first())) + entry_bytes(e.0, e.1));
    }
}

/// One more merge at the end adds its bytes at the end.
pub proof fn lemma_merges_bytes_push(merges: Seq<(Pair, u32)>, m: (Pair, u32))
    ensures
        merges_bytes(merges.push(m)) == merges_bytes(merges) + merge_bytes(m),
    decreases merges.len(),
{
    if merges.len() == 0 {
        assert(merges.push(m).drop_first() =~= Seq::<(Pair, u32)>::empty());
        assert(merges_bytes(merges.push(m).drop_first()) == Seq::<u8>::empty());
        assert(merges.push(m)[0] == m);
        assert(merge_bytes(m) + Seq::<u8>::empty() =~= Seq::<u8>::empty() + merge_bytes(m));
    } else {
        lemma_merges_bytes_push(merges.drop_first(), m);
        assert(merges.push(m).drop_first() =~= merges.drop_first().push(m));
        assert(merges.push(m)[0] == merges[0]);
        let h = merge_bytes(merges[0]);
        assert(h + (merges_bytes(merges.drop_first()) + merge_bytes(m)) =~= (h + merges_bytes(
            merges.drop_first(),
        )) + merge_bytes(m));
    }
}

/// A whole table with its vocabulary entries in the given order.
pub open spec fn table_bytes(entries: Seq<(u32, Seq<char>)>, merges: Seq<(Pair, u32)>) -> Seq<u8> {
    magic() + spec_u64_to_le_bytes(entries.len() as u64) + entries_bytes(entries)
        + spec_u64_to_le_bytes(merges.len() as u64) + merges_bytes(merges)
}

/// The entries of `vocab` in the order of `ids`.
pub open spec fn entries_in_order(vocab: Map<u32, Seq<char>>, ids: Seq<u32>) -> Seq<(u32, Seq<char>)> {
    ids.map_values(|id: u32| (id, vocab[id]))
}

/// Whether `ids` lists every key of `vocab` once.
pub open spec fn lists_keys(vocab: Map<u32, Seq<char>>, ids: Seq<u32>) -> bool {
    ids.no_duplicates() && ids.to_set() == vocab.dom()
}

/// The `u32` stored little endian at `p`.
pub open spec fn u32_at(d: Seq<u8>, p: int) -> u32 {
    spec_u32_from_le_bytes(d.subrange(p, p + 4))
}

/// The `u64` stored little endian at `p`.
pub open spec fn u64_at(d: Seq<u8>, p: int) -> u64 {
    spec_u64_from_le_bytes(d.subrange(p, p + 8))
}

/// Reads `count` vocabulary entries from `p` on into `acc`, a later entry
/// replacing an earlier one with the same id; gives the position after them.
pub open spec fn parse_entries(d: Seq<u8>, p: int, count: nat, acc: Map<u32, Seq<char>>) -> Result<
    (int, Map<u32, Seq<char>>),
    LoadError,
>
    decreases count,
{
    if count == 0 {
        Ok((p, acc))
    } else if p + 8 > d.len() {
        Err(LoadError::Truncated)
    } else {
        let end = p + 8 + u32_at(d, p + 4);
        if end > d.len() {
            Err(LoadError::Truncated)
        } else if !valid_utf8(d.subrange(p + 8, end)) {
            Err(LoadError::InvalidUtf8)
        } else {
            parse_entries(
                d,
                end,
                (count - 1) as nat,
                acc.insert(u32_at(d, p), decode_utf8(d.subrange(p + 8, end))),
            )
        }
    }
}

/// Reads `count` merges from `p` on after `acc`; gives the position after them.
pub open spec fn parse_merges(d: Seq<u8>, p: int, count: nat, acc: Seq<(Pair, u32)>) -> Result<
    (int, Seq<(Pair, u32)>),
    LoadError,
>
    decreases count,
{
    if count == 0 {
        Ok((p, acc))
    } else if p + 12 > d.len() {
        Err(LoadError::Truncated)
    } else {
        parse_merges(
            d,
            p + 12,
            (count - 1) as nat,
            acc.push((Pair { l: u32_at(d, p), r: u32_at(d, p + 4) }, u32_at(d, p + 8))),
        )
    }
}

/// Reads a whole table: its merges and its vocabulary.
pub open spec fn parse_table(d: Seq<u8>) -> Result<(Seq<(Pair, u32)>, Map<u32, Seq<char>>), LoadError> {
    if d.len() < 8 {
        Err(LoadError::Truncated)
    } else if d.subrange(0, 8) != magic() {
        Err(LoadError::BadMagic)
    } else if d.len() < 16 {
        Err(LoadError::Truncated)
    } else {
        match parse_entries(d, 16, u64_at(d, 8) as nat, Map::empty()) {
            Err(e) => Err(e),
            Ok((p, vocab)) => if p + 8 > d.len() {
                Err(LoadError::Truncated)
            } else {
                match parse_merges(d, p + 8, u64_at(d, p) as nat, seq![]) {
                    Err(e) => Err(e),
                    Ok((_, merges)) => Ok((merges, vocab)),
                }
            },
        }
    }
}

fn read_u32(data: &[u8], p: usize) -> (x: u32)
    requires
        p + 4 <= data@.len(),
    ensures
        x == u32_at(data@, p as int),
{
    let n = data.len();
    u32_from_le_bytes(vstd::slice::slice_subrange(data, p, p + 4))
}

fn read_u64(data: &[u8], p: usize) -> (x: u64)
    requires
        p + 8 <= data@.len(),
    ensures
        x == u64_at(data@, p as int),
{
    let n = data.len();
    u64_from_le_bytes(vstd::slice::slice_subrange(data, p, p + 8))
}

/// `acc` with the entries inserted one by one, in order.
pub open spec fn insert_all(acc: Map<u32, Seq<char>>, entries: Seq<(u32, Seq<char>)>) -> Map<u32, Seq<char>>
    decreases entries.len(),
{
    if entries.len() == 0 {
        acc
    } else {
        insert_all(acc.insert(entries[0].0, entries[0].1), entries.drop_first())
    }
}

/// Whether every text of `vocab` takes at most `u32::MAX` bytes of UTF-8.
pub open spec fn texts_fit(vocab: Map<u32, Seq<char>>) -> bool {
    forall|k: u32| #[trigger] vocab.contains_key(k) ==> encode_utf8(vocab[k]).len() <= u32::MAX
}

proof fn lemma_u32_bytes(x: u32)
    ensures
        spec_u32_to_le_bytes(x).len() == 4,
        spec_u32_from_le_bytes(spec_u32_to_le_bytes(x)) == x,
{
    vstd::bytes::lemma_auto_spec_u32_to_from_le_bytes();
    assert(spec_u32_to_le_bytes(x).len() == 4);
}

proof fn lemma_u64_bytes(x: u64)
    ensures
        spec_u64_to_le_bytes(x).len() == 8,
        spec_u64_from_le_bytes(spec_u64_to_le_bytes(x)) == x,
{
    vstd::bytes::lemma_auto_spec_u64_to_from_le_bytes();
}

/// Entries written between `x` and `y` read back as themselves.
proof fn lemma_parse_entries_bytes(
    x: Seq<u8>,
    entries: Seq<(u32, Seq<char>)>,
    y: Seq<u8>,
    acc: Map<u32, Seq<char>>,
)
    requires
        forall|i: int| 0 <= i < entries.len() ==> encode_utf8((#[trigger] entries[i]).1).len() <= u32::MAX,
    ensures
        parse_entries(x + entries_bytes(entries) + y, x.len() as int, entries.len(), acc) == Ok::<_, LoadError>(
            ((x + entries_bytes(entries)).len() as int, insert_all(acc, entries)),
        ),
    decreases entries.len(),
{
    let d = x + entries_bytes(entries) + y;
    if entries.len() == 0 {
        assert(x + entries_bytes(entries) =~= x);
    } else {
        let (id, text) = entries[0];
        let b = encode_utf8(text);
        let rest = entries.drop_first();
        assert forall|i: int| 0 <= i < rest.len() implies encode_utf8((#[trigger] rest[i]).1).len() <= u32::MAX by {
            assert(rest[i] == entries[i + 1]);
        }
        assert(encode_utf8(entries[0].1).len() <= u32::MAX);
        lemma_u32_bytes(id);
        lemma_u32_bytes(b.len() as u32);
        let x2 = x + entry_bytes(id, text);
        lemma_parse_entries_bytes(x2, rest, y, acc.insert(id, text));
        assert(d =~= x2 + entries_bytes(rest) + y);
        assert(x2 + entries_bytes(rest) =~= x + entries_bytes(entries));
        let p = x.len() as int;
        assert(d.subrange(p, p + 4) =~= spec_u32_to_le_bytes(id));
        assert(d.subrange(p + 4, p + 8) =~= spec_u32_to_le_bytes(b.len() as u32));
        assert(d.subrange(p + 8, p + 8 + b.len()) =~= b);
        vstd::utf8::encode_utf8_valid_utf8(text);
        vstd::utf8::encode_utf8_decode_utf8(text);
    }
}

/// Merges written between `x` and `y` read back as themselves.
proof fn lemma_parse_merges_bytes(x: Seq<u8>, merges: Seq<(Pair, u32)>, y: Seq<u8>, acc: Seq<(Pair, u32)>)
    ensures
        parse_merges(x + merges_bytes(merges) + y, x.len() as int, merges.len(), acc) == Ok::<_, LoadError>(
            ((x + merges_bytes(merges)).len() as int, acc + merges),
        ),
    decreases merges.len(),
{
    let d = x + merges_bytes(merges) + y;
    if merges.len() == 0 {
        assert(x + merges_bytes(merges) =~= x);
        assert(acc + merges =~= acc);
    } else {
        let m = merges[0];
        let rest = merges.drop_first();
        lemma_u32_bytes(m.0.l);
        lemma_u32_bytes(m.0.r);
        lemma_u32_bytes(m.1);
        let x2 = x + merge_bytes(m);
        lemma_parse_merges_bytes(x2, rest, y, acc.push(m));
        assert(d =~= x2 + merges_bytes(rest) + y);
        assert(x2 + merges_bytes(rest) =~= x + merges_bytes(merges));
        assert(acc.push(m) + rest =~= acc + merges);
        let p = x.len() as int;
        assert(d.subrange(p, p + 4) =~= spec_u32_to_le_bytes(m.0.l));
        assert(d.subrange(p + 4, p + 8) =~= spec_u32_to_le_bytes(m.0.r));
        assert(d.subrange(p + 8, p + 12) =~= spec_u32_to_le_bytes(m.1));
    }
}

/// Inserting the entries of `vocab` for distinct `ids` gives `vocab` on those
/// ids and `acc` elsewhere.
proof fn lemma_insert_all(acc: Map<u32, Seq<char>>, vocab: Map<u32, Seq<char>>, ids: Seq<u32>)
    requires
        ids.no_duplicates(),
    ensures
        insert_all(acc, entries_in_order(vocab, ids)).dom() == acc.dom() + ids.to_set(),
        forall|k: u32| #[trigger]
            insert_all(acc, entries_in_order(vocab, ids)).contains_key(k) ==> insert_all(
                acc,
                entries_in_order(vocab, ids),
            )[k] == if ids.contains(k) {
                vocab[k]
            } else {
                acc[k]
            },
    decreases ids.len(),
{
    let es = entries_in_order(vocab, ids);
    if ids.len() == 0 {
        assert(ids.to_set() =~= Set::<u32>::empty());
        assert(acc.dom() + ids.to_set() =~= acc.dom());
    } else {
        let rest = ids.drop_first();
        assert(es.drop_first() =~= entries_in_order(vocab, rest));
        let acc2 = acc.insert(ids[0], vocab[ids[0]]);
        lemma_insert_all(acc2, vocab, rest);
        assert(ids.to_set() =~= rest.to_set().insert(ids[0])) by {
            assert forall|k: u32| ids.to_set().contains(k) implies rest.to_set().insert(ids[0]).contains(k) by {
                let i = choose|i: int| 0 <= i < ids.len() && ids[i] == k;
                if i > 0 {
                    assert(rest[i - 1] == k);
                }
            }
            assert forall|k: u32| rest.to_set().contains(k) implies ids.to_set().contains(k) by {
                let i = choose|i: int| 0 <= i < rest.len() && rest[i] == k;
                assert(ids[i + 1] == k);
            }
        }
        assert(acc2.dom() + rest.to_set() =~= acc.dom() + ids.to_set());
        assert(!rest.contains(ids[0])) by {
            if rest.contains(ids[0]) {
                let i = choose|i: int| 0 <= i < rest.len() && rest[i] == ids[0];
                assert(ids[i + 1] == ids[0]);
            }
        }
        assert forall|k: u32| #[trigger] insert_all(acc, es).contains_key(k) implies insert_all(acc, es)[k]
            == if ids.contains(k) { vocab[k] } else { acc[k] } by {
            if rest.contains(k) {
                let i = choose|i: int| 0 <= i < rest.len() && rest[i] == k;
                assert(ids[i + 1] == k);
            } else if ids.contains(k) {
                let i = choose|i: int| 0 <= i < ids.len() && ids[i] == k;
                if i > 0 {
                    assert(rest[i - 1] == k);
                }
            } else {
                assert(!ids.to_set().contains(k));
            }
        }
    }
}

/// Writing then reading a table gives back its merges and its vocabulary,
/// whatever order the entries were written in, provided each text fits the
/// 32-bit length field.
pub proof fn lemma_table_round_trip(vocab: Map<u32, Seq<char>>, merges: Seq<(Pair, u32)>, ids: Seq<u32>)
    requires
        lists_keys(vocab, ids),
        texts_fit(vocab),
        ids.len() <= u64::MAX,
        merges.len() <= u64::MAX,
    ensures
        parse_table(table_bytes(entries_in_order(vocab, ids), merges)) == Ok::<_, LoadError>((merges, vocab)),
{
    let es = entries_in_order(vocab, ids);
    let head = magic() + spec_u64_to_le_bytes(es.len() as u64);
    let tail = spec_u64_to_le_bytes(merges.len() as u64) + merges_bytes(merges);
    let d = table_bytes(es, merges);
    lemma_u64_bytes(es.len() as u64);
    lemma_u64_bytes(merges.len() as u64);
    assert(d =~= head + entries_bytes(es) + tail);
    assert forall|i: int| 0 <= i < es.len() implies encode_utf8((#[trigger] es[i]).1).len() <= u32::MAX by {
        assert(ids.to_set().contains(ids[i]));
        assert(vocab.contains_key(ids[i]));
    }
    lemma_parse_entries_bytes(head, es, tail, Map::empty());
    assert(d.subrange(0, 8) =~= magic());
    assert(d.subrange(8, 16) =~= spec_u64_to_le_bytes(es.len() as u64));
    let p = (head + entries_bytes(es)).len() as int;
    let x2 = head + entries_bytes(es) + spec_u64_to_le_bytes(merges.len() as u64);
    assert(d =~= x2 + merges_bytes(merges) + Seq::<u8>::empty());
    assert(d.subrange(p, p + 8) =~= spec_u64_to_le_bytes(merges.len() as u64));
    lemma_parse_merges_bytes(x2, merges, Seq::<u8>::empty(), seq![]);
    assert(seq![] + merges =~= merges);
    lemma_insert_all(Map::empty(), vocab, ids);
    assert(insert_all(Map::empty(), es) =~= vocab) by {
        assert forall|k: u32| #[trigger] vocab.contains_key(k) implies ids.contains(k) by {
            assert(ids.to_set().contains(k));
        }
    }
}

/// Reading entries only moves forward.
proof fn lemma_entries_advance(d: Seq<u8>, p: int, count: nat, acc: Map<u32, Seq<char>>)
    ensures
        parse_entries(d, p, count, acc) matches Ok((q, _)) ==> q >= p,
    decreases count,
{
    if count > 0 && p + 8 <= d.len() {
        let end = p + 8 + u32_at(d, p + 4);
        if end <= d.len() && valid_utf8(d.subrange(p + 8, end)) {
            lemma_entries_advance(
                d,
                end,
                (count - 1) as nat,
                acc.insert(u32_at(d, p), decode_utf8(d.subrange(p + 8, end))),
            );
        }
    }
}

/// Reading entries from the first `m` bytes of `d`, from `p` on, gives what
/// reading them from `d` gives where that ends within the `m` bytes, and
/// `Truncated` where it ends after them.
proof fn lemma_entries_on_prefix(d: Seq<u8>, m: int, p: int, count: nat, acc: Map<u32, Seq<char>>)
    requires
        0 <= p <= m <= d.len(),
    ensures
        match parse_entries(d, p, count, acc) {
            Ok((q, v)) => parse_entries(d.take(m), p, count, acc) == if q <= m {
                Ok::<(int, Map<u32, Seq<char>>), LoadError>((q, v))
            } else {
                Err::<(int, Map<u32, Seq<char>>), LoadError>(LoadError::Truncated)
            },
            Err(_) => true,
        },
    decreases count,
{
    let dp = d.take(m);
    if count > 0 && p + 8 <= d.len() {
        let end = p + 8 + u32_at(d, p + 4);
        if end <= d.len() && valid_utf8(d.subrange(p + 8, end)) {
            let acc2 = acc.insert(u32_at(d, p), decode_utf8(d.subrange(p + 8, end)));
            lemma_entries_advance(d, end, (count - 1) as nat, acc2);
            if p + 8 <= m {
                assert(dp.subrange(p + 4, p + 8) =~= d.subrange(p + 4, p + 8));
                assert(dp.subrange(p, p + 4) =~= d.subrange(p, p + 4));
                if end <= m {
                    assert(dp.subrange(p + 8, end) =~= d.subrange(p + 8, end));
                    lemma_entries_on_prefix(d, m, end, (count - 1) as nat, acc2);
                }
            }
        }
    }
}

/// Reading merges only moves forward.
proof fn lemma_merges_advance(d: Seq<u8>, p: int, count: nat, acc: Seq<(Pair, u32)>)
    ensures
        parse_merges(d, p, count, acc) matches Ok((q, _)) ==> q >= p,
    decreases count,
{
    if count > 0 && p + 12 <= d.len() {
        lemma_merges_advance(
            d,
            p + 12,
            (count - 1) as nat,
            acc.push((Pair { l: u32_at(d, p), r: u32_at(d, p + 4) }, u32_at(d, p + 8))),
        );
    }
}

/// Reading merges from the first `m` bytes of `d`, from `p` on, gives what
/// reading them from `d` gives where that ends within the `m` bytes, and
/// `Truncated` where it ends after them.
proof fn lemma_merges_on_prefix(d: Seq<u8>, m: int, p: int, count: nat, acc: Seq<(Pair, u32)>)
    requires
        0 <= p <= m <= d.len(),
    ensures
        match parse_merges(d, p, count, acc) {
            Ok((q, v)) => parse_merges(d.take(m), p, count, acc) == if q <= m {
                Ok::<(int, Seq<(Pair, u32)>), LoadError>((q, v))
            } else {
                Err::<(int, Seq<(Pair, u32)>), LoadError>(LoadError::Truncated)
            },
            Err(_) => true,
        },
    decreases count,
{
    let dp = d.take(m);
    if count > 0 && p + 12 <= d.len() {
        let acc2 = acc.push((Pair { l: u32_at(d, p), r: u32_at(d, p + 4) }, u32_at(d, p + 8)));
        lemma_merges_advance(d, p + 12, (count - 1) as nat, acc2);
        if p + 12 <= m {
            assert(dp.subrange(p, p + 4) =~= d.subrange(p, p + 4));
            assert(dp.subrange(p + 4, p + 8) =~= d.subrange(p + 4, p + 8));
            assert(dp.subrange(p + 8, p + 12) =~= d.subrange(p + 8, p + 12));
            lemma_merges_on_prefix(d, m, p + 12, (count - 1) as nat, acc2);
        }
    }
}

/// A written table cut short anywhere reads as `Truncated`: reading never
/// takes a proper prefix of a table for a smaller table.
pub proof fn lemma_table_prefix_truncated(
    vocab: Map<u32, Seq<char>>,
    merges: Seq<(Pair, u32)>,
    ids: Seq<u32>,
    m: int,
)
    requires
        lists_keys(vocab, ids),
        texts_fit(vocab),
        ids.len() <= u64::MAX,
        merges.len() <= u64::MAX,
        0 <= m < table_bytes(entries_in_order(vocab, ids), merges).len(),
    ensures
        parse_table(table_bytes(entries_in_order(vocab, ids), merges).take(m)) == Err::<
            (Seq<(Pair, u32)>, Map<u32, Seq<char>>),
            LoadError,
        >(LoadError::Truncated),
{
    let es = entries_in_order(vocab, ids);
    let head = magic() + spec_u64_to_le_bytes(es.len() as u64);
    let tail = spec_u64_to_le_bytes(merges.len() as u64) + merges_bytes(merges);
    let d = table_bytes(es, merges);
    let dp = d.take(m);
    lemma_u64_bytes(es.len() as u64);
    lemma_u64_bytes(merges.len() as u64);
    assert(d =~= head + entries_bytes(es) + tail);
    assert forall|i: int| 0 <= i < es.len() implies encode_utf8((#[trigger] es[i]).1).len() <= u32::MAX by {
        assert(ids.to_set().contains(ids[i]));
        assert(vocab.contains_key(ids[i]));
    }
    lemma_parse_entries_bytes(head, es, tail, Map::empty());
    let p = (head + entries_bytes(es)).len() as int;
    let x2 = head + entries_bytes(es) + spec_u64_to_le_bytes(merges.len() as u64);
    assert(d =~= x2 + merges_bytes(merges) + Seq::<u8>::empty());
    lemma_parse_merges_bytes(x2, merges, Seq::<u8>::empty(), seq![]);
    assert((x2 + merges_bytes(merges)).len() == d.len());
    if m >= 8 {
        assert(dp.subrange(0, 8) =~= d.subrange(0, 8));
        assert(d.subrange(0, 8) =~= magic());
    }
    if m >= 16 {
        assert(dp.subrange(8, 16) =~= d.subrange(8, 16));
        assert(d.subrange(8, 16) =~= spec_u64_to_le_bytes(es.len() as u64));
        lemma_entries_on_prefix(d, m, 16, es.len(), Map::empty());
        if p + 8 <= m {
            assert(dp.subrange(p, p + 8) =~= d.subrange(p, p + 8));
            assert(d.subrange(p, p + 8) =~= spec_u64_to_le_bytes(merges.len() as u64));
            lemma_merges_on_prefix(d, m, p + 8, merges.len(), seq![]);
        }
    }
}

/// The vocabulary section: nothing for no entries, and each further entry
/// adds its id, the byte length of its text and the UTF-8 bytes of the text,
/// the two numbers as four little-endian bytes each.
pub proof fn lemma_entries_layout(entries: Seq<(u32, Seq<char>)>, e: (u32, Seq<char>))
    ensures
        entries_bytes(Seq::<(u32, Seq<char>)>::empty()) == Seq::<u8>::empty(),
        entries_bytes(entries.push(e)) == entries_bytes(entries) + spec_u32_to_le_bytes(e.0)
            + spec_u32_to_le_bytes(encode_utf8(e.1).len() as u32) + encode_utf8(e.1),
{
    lemma_entries_bytes_push(entries, e);
    let b = encode_utf8(e.1);
    assert(entries_bytes(entries) + entry_bytes(e.0, e.1) =~= entries_bytes(entries)
        + spec_u32_to_le_bytes(e.0) + spec_u32_to_le_bytes(b.len() as u32) + b);
}

/// The bytes of `merges` hold merge `j` at `12 * j`: left, right, new id,
/// each as four little-endian bytes.
proof fn lemma_merges_bytes_at(merges: Seq<(Pair, u32)>)
    ensures
        merges_bytes(merges).len() == 12 * merges.len(),
        forall|j: int|
            0 <= j < merges.len() ==> {
                let b = merges_bytes(merges);
                &&& b.subrange(12 * j, 12 * j + 4) == spec_u32_to_le_bytes((#[trigger] merges[j]).0.l)
                &&& b.subrange(12 * j + 4, 12 * j + 8) == spec_u32_to_le_bytes(merges[j].0.r)
                &&& b.subrange(12 * j + 8, 12 * j + 12) == spec_u32_to_le_bytes(merges[j].1)
            },
    decreases merges.len(),
{
    if merges.len() > 0 {
        let m = merges[0];
        let rest = merges.drop_first();
        lemma_merges_bytes_at(rest);
        lemma_u32_bytes(m.0.l);
        lemma_u32_bytes(m.0.r);
        lemma_u32_bytes(m.1);
        let h = merge_bytes(m);
        let b = merges_bytes(merges);
        let br = merges_bytes(rest);
        assert(b == h + br);
        assert forall|j: int| 0 <= j < merges.len() implies {
            &&& b.subrange(12 * j, 12 * j + 4) == spec_u32_to_le_bytes((#[trigger] merges[j]).0.l)
            &&& b.subrange(12 * j + 4, 12 * j + 8) == spec_u32_to_le_bytes(merges[j].0.r)
            &&& b.subrange(12 * j + 8, 12 * j + 12) == spec_u32_to_le_bytes(merges[j].1)
        } by {
            if j == 0 {
                assert(b.subrange(0, 4) =~= spec_u32_to_le_bytes(m.0.l));
                assert(b.subrange(4, 8) =~= spec_u32_to_le_bytes(m.0.r));
                assert(b.subrange(8, 12) =~= spec_u32_to_le_bytes(m.1));
            } else {
                let k = j - 1;
                assert(merges[j] == rest[k]);
                assert(b.subrange(12 * j, 12 * j + 4) =~= br.subrange(12 * k, 12 * k + 4));
                assert(b.subrange(12 * j + 4, 12 * j + 8) =~= br.subrange(12 * k + 4, 12 * k + 8));
                assert(b.subrange(12 * j + 8, 12 * j + 12) =~= br.subrange(12 * k + 8, 12 * k + 12));
            }
        }
    }
}

/// Where everything stands in a written table: the magic bytes, the number
/// of entries, the entries, the number of merges, then merge `j` at
/// `12 * j` past the number of merges as its left token, right token and new
/// id, four little-endian bytes each, in table order.
pub proof fn lemma_table_layout(entries: Seq<(u32, Seq<char>)>, merges: Seq<(Pair, u32)>)
    ensures
        ({
            let d = table_bytes(entries, merges);
            let q = 16 + entries_bytes(entries).len() as int;
            &&& d.len() == q + 8 + 12 * merges.len()
            &&& d.subrange(0, 8) == seq![0x42u8, 0x50u8, 0x45u8, 0u8, 0u8, 0u8, 0u8, 1u8]
            &&& d.subrange(8, 16) == spec_u64_to_le_bytes(entries.len() as u64)
            &&& d.subrange(16, q) == entries_bytes(entries)
            &&& d.subrange(q, q + 8) == spec_u64_to_le_bytes(merges.len() as u64)
            &&& forall|j: int|
                0 <= j < merges.len() ==> {
                    &&& d.subrange(q + 8 + 12 * j, q + 12 + 12 * j) == spec_u32_to_le_bytes(
                        (#[trigger] merges[j]).0.l,
                    )
                    &&& d.subrange(q + 12 + 12 * j, q + 16 + 12 * j) == spec_u32_to_le_bytes(
                        merges[j].0.r,
                    )
                    &&& d.subrange(q + 16 + 12 * j, q + 20 + 12 * j) == spec_u32_to_le_bytes(merges[j].1)
                }
        }),
{
    let d = table_bytes(entries, merges);
    let eb = entries_bytes(entries);
    let q = 16 + eb.len() as int;
    let mb = merges_bytes(merges);
    lemma_u64_bytes(entries.len() as u64);
    lemma_u64_bytes(merges.len() as u64);
    lemma_merges_bytes_at(merges);
    let pre = magic() + spec_u64_to_le_bytes(entries.len() as u64) + eb + spec_u64_to_le_bytes(
        merges.len() as u64,
    );
    assert(d == pre + mb);
    assert(pre.len() == q + 8);
    assert(d.subrange(0, 8) =~= magic());
    assert(d.subrange(8, 16) =~= spec_u64_to_le_bytes(entries.len() as u64));
    assert(d.subrange(16, q) =~= eb);
    assert(d.subrange(q, q + 8) =~= spec_u64_to_le_bytes(merges.len() as u64));
    assert forall|j: int| 0 <= j < merges.len() implies {
        &&& d.subrange(q + 8 + 12 * j, q + 12 + 12 * j) == spec_u32_to_le_bytes(
            (#[trigger] merges[j]).0.l,
        )
        &&& d.subrange(q + 12 + 12 * j, q + 16 + 12 * j) == spec_u32_to_le_bytes(merges[j].0.r)
        &&& d.subrange(q + 16 + 12 * j, q + 20 + 12 * j) == spec_u32_to_le_bytes(merges[j].1)
    } by {
        assert(d.subrange(q + 8 + 12 * j, q + 12 + 12 * j) =~= mb.subrange(12 * j, 12 * j + 4));
        assert(d.subrange(q + 12 + 12 * j, q + 16 + 12 * j) =~= mb.subrange(12 * j + 4, 12 * j + 8));
        assert(d.subrange(q + 16 + 12 * j, q + 20 + 12 * j) =~= mb.subrange(12 * j + 8, 12 * j + 12));
    }
}

/// The merge stored at `p`: left token, right token, new id, four
/// little-endian bytes each.
pub open spec fn merge_stored_at(d: Seq<u8>, p: int) -> (Pair, u32) {
    (
        Pair {
            l: spec_u32_from_le_bytes(d.subrange(p, p + 4)),
            r: spec_u32_from_le_bytes(d.subrange(p + 4, p + 8)),
        },
        spec_u32_from_le_bytes(d.subrange(p + 8, p + 12)),
    )
}

/// Reading `count` merges from `p` on keeps `acc` and appends, in order,
/// the merges stored at `p`, `p + 12`, and so on.
proof fn lemma_parse_merges_order(d: Seq<u8>, p: int, count: nat, acc: Seq<(Pair, u32)>)
    ensures
        parse_merges(d, p, count, acc) matches Ok((q, ms)) ==> {
            &&& ms.len() == acc.len() + count
            &&& q == p + 12 * count
            &&& count > 0 ==> q <= d.len()
            &&& forall|i: int| 0 <= i < acc.len() ==> #[trigger] ms[i] == acc[i]
            &&& forall|i: int|
                acc.len() <= i < ms.len() ==> #[trigger] ms[i] == merge_stored_at(
                    d,
                    p + 12 * (i - acc.len()),
                )
        },
    decreases count,
{
    if count > 0 && p + 12 <= d.len() {
        let acc2 = acc.push((Pair { l: u32_at(d, p), r: u32_at(d, p + 4) }, u32_at(d, p + 8)));
        lemma_parse_merges_order(d, p + 12, (count - 1) as nat, acc2);
        if let Ok((q, ms)) = parse_merges(d, p, count, acc) {
            assert(parse_merges(d, p + 12, (count - 1) as nat, acc2) == Ok::<_, LoadError>((q, ms)));
            assert forall|i: int| 0 <= i < acc.len() implies #[trigger] ms[i] == acc[i] by {
                assert(ms[i] == acc2[i]);
            }
            assert forall|i: int| acc.len() <= i < ms.len() implies #[trigger] ms[i] == merge_stored_at(
                d,
                p + 12 * (i - acc.len()),
            ) by {
                if i == acc.len() {
                    assert(ms[i] == acc2[i]);
                } else {
                    assert(p + 12 + 12 * (i - acc2.len()) == p + 12 * (i - acc.len()));
                }
            }
        }
    }
}

/// Reading a table gives its merges in the order in which they stand in the
/// data: merge `j` is the one stored `12 * j` bytes after the number of
/// merges, which comes after the vocabulary entries.
pub proof fn lemma_parse_table_merge_order(d: Seq<u8>)
    ensures
        parse_table(d) matches Ok((ms, v)) ==> exists|q: int|
            16 <= q && q + 8 + 12 * ms.len() <= d.len() && #[trigger] u64_at(d, q) == ms.len()
                && forall|j: int|
                0 <= j < ms.len() ==> #[trigger] ms[j] == merge_stored_at(d, q + 8 + 12 * j),
{
    if let Ok((ms, v)) = parse_table(d) {
        lemma_entries_advance(d, 16, u64_at(d, 8) as nat, Map::empty());
        let (p, vocab) = parse_entries(d, 16, u64_at(d, 8) as nat, Map::empty())->Ok_0;
        lemma_parse_merges_order(d, p + 8, u64_at(d, p) as nat, seq![]);
        assert forall|j: int| 0 <= j < ms.len() implies #[trigger] ms[j] == merge_stored_at(d, p + 8 + 12 * j) by {
            assert(ms[j] == merge_stored_at(d, p + 8 + 12 * (j - 0)));
        }
        assert(16 <= p && p + 8 + 12 * ms.len() <= d.len() && u64_at(d, p) == ms.len());
    }
}

fn push_all(out: &mut Vec<u8>, bytes: &[u8])
    ensures
        final(out)@ == old(out)@ + bytes@,
{
    let ghost start = out@;
    for i in 0..bytes.len()
        invariant
            out@ == start + bytes@.take(i as int),
    {
        out.push(bytes[i]);
        assert(out@ =~= start + bytes@.take(i + 1));
    }
    assert(bytes@.take(bytes@.len() as int) =~= bytes@);
}

impl Bpe {
    /// The table in its binary format. The vocabulary entries come in the
    /// order in which the map yields its keys, which is not fixed: the result
    /// is the format for some order that lists every key once.
    pub fn to_bytes(&self) -> (bytes: Vec<u8>)
        ensures
            exists|ids: Seq<u32>|
                lists_keys(self.vocab_view(), ids) && bytes@ == table_bytes(
                    entries_in_order(self.vocab_view(), ids),
                    self.merges@,
                ),
    {
        let mut ids: Vec<u32> = Vec::new();
        let ghost keys = vstd::std_specs::hash::spec_keys_iter(&self.vocab).remaining();
        for id in it: self.vocab.keys()
            invariant
                it.seq() == keys,
                ids@ == keys.take(it.index() as int).unref(),
        {
            ids.push(*id);
            assert(ids@ =~= keys.take(it.index() + 1).unref());
        }
        let ghost vocab = self.vocab_view();
        proof {
            assert(ids@ =~= keys.unref());
            assert(keys.unref().to_set() == self.vocab@.dom());
            assert(ids@.to_set() =~= vocab.dom());
            assert(ids@.no_duplicates()) by {
                assert forall|i: int, j: int| 0 <= i < j < ids@.len() implies ids@[i] != ids@[j] by {
                    assert(keys[i] != keys[j]);
                }
            }
        }
        let mut out: Vec<u8> = Vec::new();
        let magic_bytes: [u8; 8] = [0x42, 0x50, 0x45, 0, 0, 0, 0, 1];
        push_all(&mut out, &magic_bytes);
        assert(out@ =~= magic());
        let count = u64_to_le_bytes(ids.len() as u64);
        push_all(&mut out, count.as_slice());
        let ghost head = out@;
        for i in 0..ids.len()
            invariant
                out@ == head + entries_bytes(entries_in_order(vocab, ids@.take(i as int))),
                vocab == self.vocab_view(),
                lists_keys(vocab, ids@),
        {
            let id = ids[i];
            proof {
                assert(ids@.to_set().contains(id));
            }
            let text = match self.vocab.get(&id) {
                Some(t) => t.as_str(),
                None => "",
            };
            assert(text@ == vocab[id]);
            let b = text.as_bytes();
            let ghost before = out@;
            push_all(&mut out, u32_to_le_bytes(id).as_slice());
            push_all(&mut out, u32_to_le_bytes(b.len() as u32).as_slice());
            push_all(&mut out, b);
            proof {
                assert(ids@.take(i + 1).drop_last() =~= ids@.take(i as int));
                let es = entries_in_order(vocab, ids@.take(i + 1));
                assert(es =~= entries_in_order(vocab, ids@.take(i as int)).push((id, vocab[id])));
                lemma_entries_bytes_push(entries_in_order(vocab, ids@.take(i as int)), (id, vocab[id]));
                assert(es.last() == (id, vocab[id]));
                assert(b@ == encode_utf8(vocab[id]));
                assert(out@ =~= head + entries_bytes(es));
            }
        }
        let ghost mid = out@;
        push_all(&mut out, u64_to_le_bytes(self.merges.len() as u64).as_slice());
        let ghost mid2 = out@;
        for i in 0..self.merges.len()
            invariant
                out@ == mid2 + merges_bytes(self.merges@.take(i as int)),
        {
            let (pair, new_id) = self.merges[i];
            push_all(&mut out, u32_to_le_bytes(pair.l).as_slice());
            push_all(&mut out, u32_to_le_bytes(pair.r).as_slice());
            push_all(&mut out, u32_to_le_bytes(new_id).as_slice());
            proof {
                assert(self.merges@.take(i + 1) =~= self.merges@.take(i as int).push((pair, new_id)));
                lemma_merges_bytes_push(self.merges@.take(i as int), (pair, new_id));
            }
        }
        proof {
            assert(ids@.take(ids@.len() as int) =~= ids@);
            assert(self.merges@.take(self.merges@.len() as int) =~= self.merges@);
            assert(out@ =~= table_bytes(entries_in_order(vocab, ids@), self.merges@));
        }
        out
    }

    /// Reads a table in its binary format. Fails exactly as `parse_table`
    /// says: on data that ends too early, on wrong magic bytes, or on a
    /// vocabulary entry that is not UTF-8.
    pub fn from_bytes(data: &[u8]) -> (table: Result<Bpe, LoadError>)
        ensures
            match table {
                Ok(b) => parse_table(data@) == Ok::<_, LoadError>((b.merges@, b.vocab_view())),
                Err(e) => parse_table(data@) == Err::<(Seq<(Pair, u32)>, Map<u32, Seq<char>>), _>(e),
            },
    {
        let ghost d = data@;
        if data.len() < 8 {
            return Err(LoadError::Truncated);
        }
        let expected: [u8; 8] = [0x42, 0x50, 0x45, 0, 0, 0, 0, 1];
        let mut k: usize = 0;
        while k < 8
            invariant
                d == data@,
                8 <= data@.len(),
                k <= 8,
                expected@ == magic(),
                forall|t: int| 0 <= t < k ==> data@[t] == magic()[t],
            decreases 8 - k,
        {
            if data[k] != expected[k] {
                proof {
                    assert(d.subrange(0, 8)[k as int] != magic()[k as int]);
                }
                return Err(LoadError::BadMagic);
            }
            k += 1;
        }
        assert(d.subrange(0, 8) =~= magic());
        if data.len() < 16 {
            return Err(LoadError::Truncated);
        }
        let num_vocab = read_u64(data, 8);
        let mut vocab: HashMap<u32, String> = HashMap::new();
        let mut p: usize = 16;
        let mut remaining: u64 = num_vocab;
        proof {
            assert(vocab_chars(vocab@) =~= Map::<u32, Seq<char>>::empty());
        }
        while remaining > 0
            invariant
                d == data@,
                16 <= p <= data@.len(),
                16 <= d.len(),
                d.subrange(0, 8) == magic(),
                num_vocab == u64_at(d, 8),
                parse_entries(d, 16, num_vocab as nat, Map::empty()) == parse_entries(
                    d,
                    p as int,
                    remaining as nat,
                    vocab_chars(vocab@),
                ),
            decreases remaining,
        {
            if data.len() - p < 8 {
                return Err(LoadError::Truncated);
            }
            let id = read_u32(data, p);
            let len = read_u32(data, p + 4);
            if data.len() - p - 8 < len as usize {
                return Err(LoadError::Truncated);
            }
            let end = p + 8 + len as usize;
            let bytes = vstd::slice::slice_subrange(data, p + 8, end);
            match utf8_text(bytes) {
                None => {
                    return Err(LoadError::InvalidUtf8);
                },
                Some(text) => {
                    let ghost before = vocab@;
                    vocab.insert(id, text.to_owned());
                    proof {
                        assert(vocab_chars(vocab@) =~= vocab_chars(before).insert(id, decode_utf8(d.subrange(p + 8, end as int))));
                    }
                },
            }
            p = end;
            remaining = remaining - 1;
        }
        if data.len() - p < 8 {
            return Err(LoadError::Truncated);
        }
        let num_merges = read_u64(data, p);
        let ghost after_vocab = p;
        p = p + 8;
        let mut merges: Vec<(Pair, u32)> = Vec::new();
        let mut remaining: u64 = num_merges;
        while remaining > 0
            invariant
                d == data@,
                p <= data@.len(),
                16 <= d.len(),
                d.subrange(0, 8) == magic(),
                after_vocab + 8 <= d.len(),
                parse_entries(d, 16, u64_at(d, 8) as nat, Map::empty()) == Ok::<_, LoadError>((after_vocab as int, vocab_chars(vocab@))),
                num_merges == u64_at(d, after_vocab as int),
                parse_merges(d, after_vocab + 8, num_merges as nat, seq![]) == parse_merges(
                    d,
                    p as int,
                    remaining as nat,
                    merges@,
                ),
            decreases remaining,
        {
            if data.len() - p < 12 {
                return Err(LoadError::Truncated);
            }
            let l = read_u32(data, p);
            let r = read_u32(data, p + 4);
            let new_id = read_u32(data, p + 8);
            merges.push((Pair { l, r }, new_id));
            p = p + 12;
            remaining = remaining - 1;
        }
        Ok(Bpe { merges, vocab })
    }
}

} // verus!
