use std::collections::HashMap;

use shitoken::bpe::Bpe;
use shitoken::pair::{merge_pass, Pair};
use shitoken::table::LoadError;

fn pair(l: u32, r: u32) -> Pair {
    Pair { l, r }
}

#[test]
fn merge_pass_replaces_left_to_right() {
    let tokens = vec![1, 1, 1, 2, 1, 1];
    assert_eq!(merge_pass(&tokens, pair(1, 1), 9), vec![9, 1, 2, 9]);
}

#[test]
fn merge_pass_without_the_pair_is_identity() {
    let tokens = vec![3, 4, 5];
    assert_eq!(merge_pass(&tokens, pair(4, 3), 9), vec![3, 4, 5]);
    assert_eq!(merge_pass(&[], pair(4, 3), 9), Vec::<u32>::new());
}

#[test]
fn train_overlapping_run() {
    let bpe = Bpe::train("aaab", 10);
    assert_eq!(
        bpe.merges,
        vec![(pair(97, 97), 99), (pair(99, 97), 100), (pair(100, 98), 101)]
    );
    assert_eq!(bpe.vocab.len(), 5);
    assert_eq!(bpe.vocab[&97], "a");
    assert_eq!(bpe.vocab[&98], "b");
    assert_eq!(bpe.vocab[&99], "aa");
    assert_eq!(bpe.vocab[&100], "aaa");
    assert_eq!(bpe.vocab[&101], "aaab");
    assert_eq!(bpe.encode("aaab"), vec![101]);
    assert_eq!(bpe.decode(&[101]), "aaab");
}

#[test]
fn train_respects_merge_budget() {
    let bpe = Bpe::train("aaab", 1);
    assert_eq!(bpe.merges, vec![(pair(97, 97), 99)]);
    assert_eq!(bpe.encode("aaab"), vec![99, 97, 98]);
    let none = Bpe::train("aaab", 0);
    assert!(none.merges.is_empty());
    assert_eq!(none.vocab.len(), 2);
}

#[test]
fn train_short_texts() {
    let empty = Bpe::train("", 5);
    assert!(empty.merges.is_empty());
    assert!(empty.vocab.is_empty());
    let one = Bpe::train("x", 5);
    assert!(one.merges.is_empty());
    assert_eq!(one.vocab.len(), 1);
    assert_eq!(one.vocab[&('x' as u32)], "x");
}

#[test]
fn train_prefers_higher_pair_on_ties() {
    // (a, b) and (c, d) both occur once; the greater pair goes first.
    let bpe = Bpe::train("abcd", 1);
    assert_eq!(bpe.merges, vec![(pair(99, 100), 101)]);
}

#[test]
fn train_merges_until_one_token() {
    // "abcab": (a, b) occurs twice and is merged first; afterwards (b, c)
    // and (c, a) are gone, (X, c) and (c, X) appear once each and the
    // greater, (X, c), goes next.
    let bpe = Bpe::train("abcab", 10);
    assert_eq!(
        bpe.merges,
        vec![(pair(97, 98), 100), (pair(100, 99), 101), (pair(101, 100), 102)]
    );
    assert_eq!(bpe.encode("abcab"), vec![102]);
    assert_eq!(bpe.decode(&bpe.encode("abcab")), "abcab");
}

#[test]
fn train_takes_a_pair_whose_count_fell() {
    // (b, c) and (c, d) both occur three times; (c, d) is greater and goes
    // first, which takes one (b, c) away. With two left, (b, c) is then the
    // most frequent pair.
    let bpe = Bpe::train("bcdbcbccdcd", 2);
    assert_eq!(bpe.merges, vec![(pair(99, 100), 101), (pair(98, 99), 102)]);
    assert_eq!(bpe.vocab.len(), 5);
    assert_eq!(bpe.vocab[&101], "cd");
    assert_eq!(bpe.vocab[&102], "bc");
    assert_eq!(bpe.encode("bcdbcbccdcd"), vec![98, 101, 102, 102, 101, 101]);
}

/// Training written out directly: every round counts all pairs of the
/// current sequence and merges the most frequent, ties to the greater pair.
fn reference_merges(text: &str, rounds: usize) -> Vec<(Pair, u32)> {
    let mut seq: Vec<u32> = text.chars().map(|c| c as u32).collect();
    let mut next = seq.iter().copied().max().unwrap_or(0) + 1;
    let mut merges = Vec::new();
    for _ in 0..rounds {
        if seq.len() < 2 {
            break;
        }
        let mut best: Option<(usize, u32, u32)> = None;
        for i in 0..seq.len() - 1 {
            let (l, r) = (seq[i], seq[i + 1]);
            let count = (0..seq.len() - 1).filter(|&j| seq[j] == l && seq[j + 1] == r).count();
            if best.map_or(true, |b| (count, l, r) > b) {
                best = Some((count, l, r));
            }
        }
        let (_, l, r) = best.unwrap();
        merges.push((pair(l, r), next));
        seq = merge_pass(&seq, pair(l, r), next);
        next += 1;
    }
    merges
}

#[test]
fn train_agrees_with_counting_every_round() {
    let texts = [
        "bcdbcbccdcd",
        "aaab",
        "abababcabcab",
        "the cat sat on the mat, the cat ate the rat\nthe end",
        "to be or not to be, that is the question: whether tis nobler",
        "mississippi mississippi river",
    ];
    for text in texts {
        for rounds in [0, 1, 3, 7, 40] {
            assert_eq!(Bpe::train(text, rounds).merges, reference_merges(text, rounds), "{text} {rounds}");
        }
    }
}

#[test]
fn decodes_to_checks_the_round_trip() {
    let bpe = Bpe::train("hello hello", 5);
    let tokens = bpe.encode("hello");
    assert!(bpe.decodes_to(&tokens, "hello"));
    assert!(!bpe.decodes_to(&tokens, "hellO"));
    assert!(!bpe.decodes_to(&tokens, "hell"));
}

#[test]
fn round_trip_on_corpus() {
    let text = "the cat sat on the mat, the cat ate the rat\nthe end";
    let bpe = Bpe::train(text, 30);
    let tokens = bpe.encode(text);
    assert!(tokens.len() < text.chars().count());
    assert_eq!(bpe.decode(&tokens), text);
    for (i, (_, id)) in bpe.merges.iter().enumerate() {
        assert_eq!(*id, ('t' as u32) + 1 + i as u32);
    }
}

#[test]
fn round_trip_on_other_text() {
    let bpe = Bpe::train("hello hello world", 10);
    let text = "hold the world, héllo";
    assert_eq!(bpe.decode(&bpe.encode(text)), text);
}

#[test]
fn token_str_falls_back_to_the_character() {
    let bpe = Bpe::train("ab", 0);
    assert_eq!(bpe.token_str(97), "a");
    assert_eq!(bpe.token_str('é' as u32), "é");
    assert_eq!(bpe.token_str(0xD800), "");
    assert_eq!(bpe.token_str(0x110000), "");
}

#[test]
fn decode_concatenates() {
    let mut vocab = HashMap::new();
    vocab.insert(1000, "xy".to_string());
    let bpe = Bpe { merges: vec![], vocab };
    assert_eq!(bpe.decode(&[1000, 33, 1000]), "xy!xy");
    assert_eq!(bpe.decode(&[]), "");
}

#[test]
fn encode_applies_merges_in_order() {
    let mut vocab = HashMap::new();
    vocab.insert(200, "ab".to_string());
    vocab.insert(201, "abc".to_string());
    let bpe = Bpe {
        merges: vec![(pair(97, 98), 200), (pair(200, 99), 201)],
        vocab,
    };
    assert_eq!(bpe.encode("abcab"), vec![201, 200]);
    assert_eq!(bpe.encode(""), Vec::<u32>::new());
}

#[test]
fn table_bytes_round_trip() {
    let bpe = Bpe::train("banana bandana", 8);
    let bytes = bpe.to_bytes();
    assert_eq!(&bytes[..8], b"BPE\x00\x00\x00\x00\x01");
    let back = Bpe::from_bytes(&bytes).unwrap();
    assert_eq!(back.merges, bpe.merges);
    assert_eq!(back.vocab, bpe.vocab);
}

#[test]
fn table_bytes_layout() {
    let mut vocab = HashMap::new();
    vocab.insert(7, "é".to_string());
    let bpe = Bpe { merges: vec![(pair(1, 2), 3)], vocab };
    let bytes = bpe.to_bytes();
    let mut expected = b"BPE\x00\x00\x00\x00\x01".to_vec();
    expected.extend_from_slice(&1u64.to_le_bytes());
    expected.extend_from_slice(&7u32.to_le_bytes());
    expected.extend_from_slice(&2u32.to_le_bytes());
    expected.extend_from_slice("é".as_bytes());
    expected.extend_from_slice(&1u64.to_le_bytes());
    expected.extend_from_slice(&1u32.to_le_bytes());
    expected.extend_from_slice(&2u32.to_le_bytes());
    expected.extend_from_slice(&3u32.to_le_bytes());
    assert_eq!(bytes, expected);
}

#[test]
fn load_rejects_short_data() {
    assert!(matches!(Bpe::from_bytes(b"BPE"), Err(LoadError::Truncated)));
    assert!(matches!(
        Bpe::from_bytes(b"BPE\x00\x00\x00\x00\x01\x01"),
        Err(LoadError::Truncated)
    ));
    let mut data = b"BPE\x00\x00\x00\x00\x01".to_vec();
    data.extend_from_slice(&1u64.to_le_bytes());
    data.extend_from_slice(&5u32.to_le_bytes());
    data.extend_from_slice(&10u32.to_le_bytes());
    data.extend_from_slice(b"abc");
    assert!(matches!(Bpe::from_bytes(&data), Err(LoadError::Truncated)));
}

#[test]
fn load_rejects_bad_magic() {
    let mut data = b"BPX\x00\x00\x00\x00\x01".to_vec();
    data.extend_from_slice(&0u64.to_le_bytes());
    data.extend_from_slice(&0u64.to_le_bytes());
    assert!(matches!(Bpe::from_bytes(&data), Err(LoadError::BadMagic)));
}

#[test]
fn load_rejects_invalid_utf8() {
    let mut data = b"BPE\x00\x00\x00\x00\x01".to_vec();
    data.extend_from_slice(&1u64.to_le_bytes());
    data.extend_from_slice(&5u32.to_le_bytes());
    data.extend_from_slice(&2u32.to_le_bytes());
    data.extend_from_slice(&[0xC3, 0x28]);
    data.extend_from_slice(&0u64.to_le_bytes());
    assert!(matches!(Bpe::from_bytes(&data), Err(LoadError::InvalidUtf8)));
}

#[test]
fn load_keeps_last_duplicate_and_ignores_trailing_bytes() {
    let mut data = b"BPE\x00\x00\x00\x00\x01".to_vec();
    data.extend_from_slice(&2u64.to_le_bytes());
    for text in ["x", "yz"] {
        data.extend_from_slice(&9u32.to_le_bytes());
        data.extend_from_slice(&(text.len() as u32).to_le_bytes());
        data.extend_from_slice(text.as_bytes());
    }
    data.extend_from_slice(&0u64.to_le_bytes());
    data.extend_from_slice(b"junk");
    let bpe = Bpe::from_bytes(&data).unwrap();
    assert_eq!(bpe.vocab.len(), 1);
    assert_eq!(bpe.vocab[&9], "yz");
    assert!(bpe.merges.is_empty());
}

#[test]
fn train_larger_corpus() {
    let mut text = String::new();
    let words = ["lorem", "ipsum", "dolor", "sit", "amet", "consectetur", "adipiscing", "elit"];
    let mut state: u32 = 12345;
    for _ in 0..40000 {
        state = state.wrapping_mul(1103515245).wrapping_add(12345);
        text.push_str(words[(state >> 16) as usize % words.len()]);
        text.push(if (state >> 8) % 7 == 0 { '\n' } else { ' ' });
    }
    let bpe = Bpe::train(&text, 300);
    assert!(!bpe.merges.is_empty());
    let tokens = bpe.encode(&text);
    assert_eq!(bpe.decode(&tokens), text);
    let back = Bpe::from_bytes(&bpe.to_bytes()).unwrap();
    assert_eq!(back.encode(&text), tokens);
}

#[test]
fn more_rounds_extend_the_table() {
    let text = "the cat sat on the mat, the cat ate the rat";
    let small = Bpe::train(text, 4);
    let large = Bpe::train(text, 12);
    assert_eq!(small.merges[..], large.merges[..small.merges.len()]);
    for (id, s) in &small.vocab {
        assert_eq!(large.vocab.get(id), Some(s));
    }
}

#[test]
fn encoding_the_corpus_shortens_it_by_each_merge() {
    let text = "abababcabcab mississippi";
    for rounds in [0, 2, 5, 50] {
        let bpe = Bpe::train(text, rounds);
        assert!(bpe.encode(text).len() + bpe.merges.len() <= text.chars().count());
    }
}

#[test]
fn every_cut_of_a_table_reads_as_truncated() {
    let bpe = Bpe::train("hello héllo", 4);
    let bytes = bpe.to_bytes();
    for m in 0..bytes.len() {
        assert!(matches!(Bpe::from_bytes(&bytes[..m]), Err(LoadError::Truncated)), "cut at {m}");
    }
    assert!(Bpe::from_bytes(&bytes).is_ok());
}
