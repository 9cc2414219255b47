use inverted_index::analysis::Analyzer;
use inverted_index::char_utf8::{decode_utf8, encode_utf8, utf8_char_width};
use inverted_index::chars::successor;
use inverted_index::document::Document;
use inverted_index::postings::{intersect_ids, Position, PostingsMap};
use inverted_index::search_result::SearchResult;
use inverted_index::tokenizers::{lowercase_ngrams, EnglishUtf8, Token};

#[test]
fn postings_test_merge() {
    let mut left = PostingsMap::new();
    left.insert_pos(1, Position::new((0, 1), 0));
    left.insert_pos(1, Position::new((2, 3), 1));
    let mut right = PostingsMap::new();
    right.insert_pos(1, Position::new((4, 5), 2));
    right.insert_pos(1, Position::new((6, 7), 3));
    left.merge_from(&right);
    assert_eq!(left.entries.len(), 1);
    assert_eq!(left.entries[0].0, 1);
    assert_eq!(
        left.entries[0].1,
        vec![
            Position::new((0, 1), 0),
            Position::new((2, 3), 1),
            Position::new((4, 5), 2),
            Position::new((6, 7), 3),
        ]
    );
}

fn map_with_ids(ids: &[u64]) -> PostingsMap {
    let mut m = PostingsMap::new();
    for &id in ids {
        m.insert_pos(id, Position::new((0, 1), 0));
    }
    m
}

#[test]
fn test_intersection_first_min() {
    let maps = vec![
        map_with_ids(&[1, 2, 3, 4]),
        map_with_ids(&[2, 3, 4]),
        map_with_ids(&[1, 2, 3]),
    ];
    let intersection = intersect_ids(&maps);
    assert_eq!(intersection, vec![2, 3]);
}

#[test]
fn test_intersection_last_min() {
    let maps = vec![
        map_with_ids(&[2, 3, 4, 5]),
        map_with_ids(&[2, 3, 4]),
        map_with_ids(&[1, 2, 3]),
    ];
    let intersection = intersect_ids(&maps);
    assert_eq!(intersection, vec![2, 3]);
}

fn collect_tokens(t: &mut EnglishUtf8) -> Vec<Token> {
    let mut toks = vec![];
    let mut tok = Token::empty();
    while t.read(&mut tok) {
        toks.push(tok.clone());
    }
    toks
}

#[test]
fn tiny_buffer() {
    let bytes = b"Hi, Dave! How are you?".to_vec();
    let mut tokenizer = EnglishUtf8::new(bytes);
    let toks = collect_tokens(&mut tokenizer);
    assert_eq!(
        toks,
        vec![
            Token::new("Hi", (0, 2), 0),
            Token::new("Dave", (4, 8), 1),
            Token::new("How", (10, 13), 2),
            Token::new("are", (14, 17), 3),
            Token::new("you", (18, 21), 4),
        ]
    );
}

#[test]
fn lowercase_ngrams_expands_prefixes() {
    let mut f = lowercase_ngrams(b"AbC dE".to_vec());
    let mut tok = Token::empty();
    let mut toks = vec![];
    while f.read(&mut tok) {
        toks.push(tok.clone());
    }
    assert_eq!(
        toks,
        vec![
            Token::new("a", (0, 1), 0),
            Token::new("ab", (0, 2), 0),
            Token::new("abc", (0, 3), 0),
            Token::new("d", (4, 5), 1),
            Token::new("de", (4, 6), 1),
        ]
    );
}

#[test]
fn analyzer_streams_match_expected() {
    let pairs = Analyzer::Ngrams.analyze("be b");
    let views: Vec<(String, Position)> = pairs;
    assert_eq!(views.len(), 3);
    assert_eq!(views[0].0, "b");
    assert_eq!(views[0].1, Position::new((0, 1), 0));
    assert_eq!(views[1].0, "be");
    assert_eq!(views[1].1, Position::new((0, 2), 0));
    assert_eq!(views[2].0, "b");
    assert_eq!(views[2].1, Position::new((3, 4), 1));
    let tokens = Analyzer::Whitespace.analyze_tokens("BeAt  loud");
    assert_eq!(tokens, vec!["beat".to_string(), "loud".to_string()]);
}

#[test]
fn utf8_codec_round_trips() {
    for c in ['a', 'å', '您', '\u{10FFFF}'] {
        let mut buf = vec![0u8; 4];
        let n = encode_utf8(c, &mut buf).unwrap();
        assert_eq!(n, c.len_utf8());
        assert_eq!(utf8_char_width(buf[0]), n);
        let (m, d) = decode_utf8(&buf[..n]).unwrap();
        assert_eq!(m, n);
        assert_eq!(d, c);
    }
    // a buffer too short is refused
    let mut small = vec![0u8; 1];
    assert!(encode_utf8('您', &mut small).is_none());
    // continuation bytes open no character
    assert!(decode_utf8(&[0x80]).is_none());
    assert_eq!(utf8_char_width(0x80), 0);
    // an overlong encoding is refused
    assert!(decode_utf8(&[0xC0, 0x80]).is_none());
}

#[test]
fn successor_skips_surrogates() {
    assert_eq!(successor('a'), Some('b'));
    assert_eq!(successor('\u{D7FF}'), Some('\u{E000}'));
    assert_eq!(successor('\u{10FFFF}'), None);
}

#[test]
fn highlight_without_positions_returns_content() {
    let r = SearchResult::new(Document::new(7, "plain text"), vec![]);
    assert_eq!(r.highlight("<b>", "</b>"), "plain text");
    assert_eq!(r.matched_len(), 0);
}
