use std::collections::BTreeMap;
use inverted_index::document::Document;
use inverted_index::index::InvertedIndex;
use inverted_index::postings::Position;
use inverted_index::query::Query::{And, Match, Or, Phrase, Prefix};

#[test]
fn index_test_ngrams() {
    let mut index = InvertedIndex::new();
    let doc1 = Document::new(1, "learn to program in rust today");
    let doc2 = Document::new(2, "what did you today do");
    index.index(doc1.clone());
    index.index(doc2.clone());
    let search_results = index.search("to");
    let expected: BTreeMap<_, _> = [
        (doc1.id, vec![Position::new((6, 8), 1), Position::new((25, 27), 5)]),
        (doc2.id, vec![Position::new((13, 15), 3)]),
    ]
    .iter()
    .cloned()
    .collect();
    assert_eq!(search_results.len(), expected.len());
    for search_result in &search_results {
        assert_eq!(&search_result.positions, &expected[&search_result.doc.id]);
    }
    assert_eq!(
        "learn <span class=highlight>to</span> program in rust <span \
                    class=highlight>to</span>day",
        search_results
            .iter()
            .find(|search_result| search_result.doc.id == doc1.id)
            .unwrap()
            .highlight("<span class=highlight>", "</span>")
    );
}

#[test]
fn index_test_highlight() {
    let mut index = InvertedIndex::new();
    let doc1 = Document::new(2, "Won\u{2019}t this split the ecosystem? Will everyone use?");
    index.index(doc1.clone());
    let expected = "Won\u{2019}t this split the *e*cosystem? Will *e*veryone use?";
    let search_results = index.search("e");
    assert_eq!(1, search_results.len());
    assert_eq!(search_results[0].highlight("*", "*"), expected);
}

#[test]
fn index_test_unicode() {
    let mut index = InvertedIndex::new();
    let doc = Document::new(0, "嗨, 您好");
    index.index(doc.clone());
    let to_search = "您";
    let search_results = index.search(to_search);
    let result = search_results.iter().next().unwrap();
    let Position { offsets: (begin, end), .. } = result.positions[0];
    assert_eq!(&result.doc.content[begin..end], to_search);
}

#[test]
fn index_test_update_doc() {
    let mut index = InvertedIndex::new();
    let doc = Document::new(0, "abc åäö");
    index.index(doc);
    let doc = Document::new(0, "different");
    index.index(doc);
    let search_results = index.search("å");
    assert!(search_results.is_empty());
    assert_eq!(index.docs.len(), 1);
}

#[test]
fn index_test_ranking() {
    let mut index = InvertedIndex::new();
    let doc = Document::new(0, "beat");
    index.index(doc.clone());
    let doc2 = Document::new(1, "beast");
    index.index(doc2);
    let search_results = index.search("be");
    assert_eq!(index.docs.len(), 2);
    // "beat" should be first, since it's a closer match
    assert_eq!(search_results[0].doc.id, doc.id);
}

#[test]
fn index_test_duplicate_term() {
    let mut index = InvertedIndex::new();
    let doc = Document::new(0, "beat");
    index.index(doc.clone());
    let search_results = index.search("be be");
    assert_eq!(search_results.len(), 1);
}

#[test]
fn index_test_duplicate_term2() {
    let mut index = InvertedIndex::new();
    let doc = Document::new(0, "beat");
    index.index(doc.clone());
    let search_results = index.search("be b");
    assert_eq!(search_results.len(), 1);
    assert_eq!(search_results[0].positions, vec![Position::new((0, 2), 0)]);
}

#[test]
fn index_test_lowercase_search() {
    let mut index = InvertedIndex::new();
    let doc = Document::new(0, "BeAt");
    index.index(doc.clone());
    let search_results = index.search("bE");
    assert_eq!(search_results.len(), 1);
    assert_eq!(search_results[0].positions, vec![Position::new((0, 2), 0)]);
}

#[test]
fn index_test_lowercase_index() {
    let mut index = InvertedIndex::new();
    let doc = Document::new(0, "BeAt");
    index.index(doc.clone());
    let search_results = index.search("be");
    assert_eq!(search_results.len(), 1);
    assert_eq!(search_results[0].positions, vec![Position::new((0, 2), 0)]);
}

#[test]
fn index_test_and() {
    let mut index = InvertedIndex::new();
    let doc1 = Document::new(1, "learn to program in rust today");
    let doc2 = Document::new(2, "what did you today do");
    let doc3 = Document::new(3, "what did you do yesterday");
    index.index(doc1.clone());
    index.index(doc2.clone());
    index.index(doc3.clone());
    let search_results = index.query(&And(vec![
        Match("today".to_string()),
        Match("you".to_string()),
    ]));
    let expected: BTreeMap<_, _> = [(
        doc2.id,
        vec![Position::new((9, 12), 2), Position::new((13, 18), 3)],
    )]
    .iter()
    .cloned()
    .collect();
    assert_eq!(search_results.len(), expected.len());
    for search_result in &search_results {
        assert_eq!(&search_result.positions, &expected[&search_result.doc.id]);
    }
}

#[test]
fn index_test_and_or() {
    let mut index = InvertedIndex::new();
    let doc1 = Document::new(1, "learn to program in rust today");
    let doc2 = Document::new(2, "what did you today do");
    let doc3 = Document::new(3, "what did you do yesterday");
    index.index(doc1.clone());
    index.index(doc2.clone());
    index.index(doc3.clone());
    let search_results = index.query(&Or(vec![
        Match("you".to_string()),
        And(vec![Match("today".to_string()), Match("you".to_string())]),
    ]));
    let expected: BTreeMap<_, _> = [
        (doc2.id, vec![Position::new((9, 12), 2), Position::new((13, 18), 3)]),
        (doc3.id, vec![Position::new((9, 12), 2)]),
    ]
    .iter()
    .cloned()
    .collect();
    assert_eq!(search_results.len(), expected.len());
    for search_result in &search_results {
        assert_eq!(&search_result.positions, &expected[&search_result.doc.id]);
    }
}

#[test]
fn index_test_phrase() {
    let mut index = InvertedIndex::new();
    let doc1 = Document::new(1, "learn to program in rust today");
    index.index(doc1.clone());
    let search_results = index.query(&Phrase("learn to program".to_string()));
    let expected: BTreeMap<_, _> = [(
        doc1.id,
        vec![
            Position::new((0, 5), 0),
            Position::new((6, 8), 1),
            Position::new((9, 16), 2),
        ],
    )]
    .iter()
    .cloned()
    .collect();
    assert_eq!(search_results.len(), expected.len());
    for search_result in &search_results {
        assert_eq!(&search_result.positions, &expected[&search_result.doc.id]);
    }
    let search_results = index.query(&Phrase("lear t pro".to_string()));
    let expected: BTreeMap<_, _> = [(
        doc1.id,
        vec![
            Position::new((0, 4), 0),
            Position::new((6, 7), 1),
            Position::new((9, 12), 2),
        ],
    )]
    .iter()
    .cloned()
    .collect();
    assert_eq!(search_results.len(), expected.len());
    for search_result in &search_results {
        assert_eq!(&search_result.positions, &expected[&search_result.doc.id]);
    }
}

#[test]
fn test_phrase2() {
    let mut index = InvertedIndex::new();
    let doc1 = Document::new(1, "is is is");
    index.index(doc1.clone());
    let expected: BTreeMap<_, _> = [(
        doc1.id,
        vec![
            Position::new((0, 1), 0),
            Position::new((3, 4), 1),
            Position::new((6, 7), 2),
        ],
    )]
    .iter()
    .cloned()
    .collect();
    let search_results = index.query(&Phrase("i i".to_string()));
    assert_eq!(search_results.len(), expected.len());
    for search_result in &search_results {
        assert_eq!(&search_result.positions, &expected[&search_result.doc.id]);
    }
}

#[test]
fn test_prefix() {
    let mut index = InvertedIndex::new();
    let doc1 = Document::new(1, "is is is");
    index.index(doc1.clone());
    let expected: BTreeMap<_, _> = [(
        doc1.id,
        vec![
            Position::new((0, 2), 0),
            Position::new((3, 5), 1),
            Position::new((6, 8), 2),
        ],
    )]
    .iter()
    .cloned()
    .collect();
    let search_results = index.query(&Prefix("i".to_string()));
    assert_eq!(search_results.len(), expected.len());
    for search_result in &search_results {
        assert_eq!(&search_result.positions, &expected[&search_result.doc.id]);
    }
}

#[test]
fn test_prefix_max_char_edge_case() {
    let mut index = InvertedIndex::new();
    let mut s: String = "a".into();
    s.push(char::MAX);
    s.push(char::MAX);
    let doc1 = Document::new(1, &s);
    index.index(doc1.clone());
    s.pop();
    let expected: BTreeMap<_, _> = [(doc1.id, vec![Position::new((0, 9), 0)])]
        .iter()
        .cloned()
        .collect();
    let search_results = index.query(&Prefix(s));
    assert_eq!(search_results.len(), expected.len());
    for search_result in &search_results {
        assert_eq!(&search_result.positions, &expected[&search_result.doc.id]);
    }
}

#[test]
fn indexing_is_order_independent() {
    // the index depends only on the final document set, not on the order
    // of insertions or on replaced intermediate versions
    let mut a = InvertedIndex::new();
    a.index(Document::new(1, "learn to program in rust today"));
    a.index(Document::new(2, "what did you today do"));
    let mut b = InvertedIndex::new();
    b.index(Document::new(2, "something else first"));
    b.index(Document::new(1, "learn to program in rust today"));
    b.index(Document::new(2, "what did you today do"));
    assert_eq!(a.index.len(), b.index.len());
    for (ea, eb) in a.index.iter().zip(b.index.iter()) {
        assert_eq!(ea.0, eb.0);
        assert_eq!(ea.1.entries, eb.1.entries);
    }
}

#[test]
fn postings_lists_are_sorted_and_coalesced() {
    let mut index = InvertedIndex::new();
    index.index(Document::new(1, "banana bandana ban"));
    index.index(Document::new(2, "ban banana"));
    for (_term, pm) in index.index.iter() {
        for (_id, list) in pm.entries.iter() {
            assert!(!list.is_empty());
            for w in list.windows(2) {
                let (a, b) = (w[0], w[1]);
                assert!(a.offsets < b.offsets || (a.offsets == b.offsets && a.position < b.position));
                // neighbours must not be mergeable
                assert!(!(a.position == b.position && a.offsets.1 >= b.offsets.0));
            }
        }
    }
}

#[test]
fn empty_results_mean_no_match() {
    let mut index = InvertedIndex::new();
    index.index(Document::new(0, "beat"));
    assert!(index.search("zebra").is_empty());
    assert!(!index.search("bea").is_empty());
    assert!(index.query(&Prefix("".to_string())).is_empty());
    assert!(index.query(&Phrase("beat".to_string())).is_empty());
}
