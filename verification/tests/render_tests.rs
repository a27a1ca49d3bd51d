use std::collections::HashMap;

use shitoken::bpe::Bpe;
use shitoken::cli::{strip_line_end, table_source, SourceError, TableSource};
use shitoken::render::{decimal_string, escape_text};

fn table_with(entries: &[(u32, &str)]) -> Bpe {
    let mut vocab = HashMap::new();
    for (id, text) in entries {
        vocab.insert(*id, text.to_string());
    }
    Bpe { merges: vec![], vocab }
}

#[test]
fn decimal_digits() {
    assert_eq!(decimal_string(0), "0");
    assert_eq!(decimal_string(7), "7");
    assert_eq!(decimal_string(10), "10");
    assert_eq!(decimal_string(4294967295), "4294967295");
}

#[test]
fn escaping() {
    assert_eq!(escape_text("plain"), "plain");
    assert_eq!(escape_text("a\"b\\c\nd\re\tf"), "a\\\"b\\\\c\\nd\\re\\tf");
    assert_eq!(escape_text(""), "");
}

#[test]
fn raw_listing_like_the_readme() {
    let bpe = Bpe::train("Tokenize me", 0);
    let tokens = bpe.encode("Tokenize me");
    assert_eq!(
        bpe.raw_listing(&tokens),
        "84:\"T\" 111:\"o\" 107:\"k\" 101:\"e\" 110:\"n\" 105:\"i\" 122:\"z\" 101:\"e\" 32:\" \" 109:\"m\" 101:\"e\""
    );
}

#[test]
fn raw_listing_escapes_and_separates() {
    let bpe = table_with(&[(300, "a\"\n")]);
    assert_eq!(bpe.raw_listing(&[300, 9]), "300:\"a\\\"\\n\" 9:\"\\t\"");
    assert_eq!(bpe.raw_listing(&[]), "");
}

#[test]
fn colored_cycles_six_backgrounds() {
    let bpe = table_with(&[(500, "x\ny")]);
    let tokens = [500, 97, 97, 97, 97, 97, 98];
    let out = bpe.colored(&tokens);
    let backgrounds = [
        "\x1b[48;2;255;213;183m",
        "\x1b[48;2;183;247;195m",
        "\x1b[48;2;183;220;255m",
        "\x1b[48;2;255;183;227m",
        "\x1b[48;2;220;195;255m",
        "\x1b[48;2;255;245;183m",
    ];
    let mut expected = String::new();
    for (i, id) in tokens.iter().enumerate() {
        let text = bpe.token_str(*id).replace('\n', "\u{21b5}\n");
        expected.push_str(backgrounds[i % 6]);
        expected.push_str("\x1b[38;2;0;0;0m");
        expected.push_str(&text);
        expected.push_str("\x1b[0m");
    }
    assert_eq!(out, expected);
    assert!(out.contains("x\u{21b5}\ny"));
}

#[test]
fn table_source_choices() {
    let t = Some("t.bpe".to_string());
    let c = Some("c.txt".to_string());
    assert_eq!(table_source(t.clone(), c.clone(), true), Err(SourceError::BothGiven));
    assert_eq!(table_source(t.clone(), None, false), Ok(TableSource::Load("t.bpe".to_string())));
    assert_eq!(table_source(None, c.clone(), true), Ok(TableSource::TrainOnFile("c.txt".to_string())));
    assert_eq!(table_source(None, None, true), Ok(TableSource::TrainOnText));
    assert_eq!(table_source(None, None, false), Err(SourceError::NothingGiven));
}

#[test]
fn line_endings_are_stripped() {
    assert_eq!(strip_line_end("abc\n"), "abc");
    assert_eq!(strip_line_end("abc\r\n"), "abc");
    assert_eq!(strip_line_end("abc\n\n"), "abc");
    assert_eq!(strip_line_end("abc\n\r"), "abc\n");
    assert_eq!(strip_line_end("\r\r"), "");
    assert_eq!(strip_line_end("héllo"), "héllo");
}
