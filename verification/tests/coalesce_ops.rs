use inverted_index::coalesce::{coalesce, merge_coalesce, search_coalesce, Span};

#[test]
fn coalesce_test_coalesce_empty() {
    let mut v: Vec<Span> = vec![];
    coalesce(&mut v, 0, Span(0, 1));
    assert_eq!(v, [Span(0, 1)]);
}

#[test]
fn coalesce_test_coalesce_first() {
    let mut v = vec![Span(1, 1)];
    coalesce(&mut v, 0, Span(0, 1));
    assert_eq!(v, [Span(0, 1)]);
}

#[test]
fn coalesce_test_coalesce_last() {
    let mut v = vec![Span(1, 1)];
    coalesce(&mut v, 1, Span(1, 2));
    assert_eq!(v, [Span(1, 2)]);
}

#[test]
fn coalesce_test_coalesce_both() {
    let mut v = vec![Span(1, 1), Span(2, 2)];
    coalesce(&mut v, 1, Span(1, 2));
    assert_eq!(v, [Span(1, 2)]);
}

#[test]
fn coalesce_test_coalesce_none() {
    let mut v = vec![Span(1, 1), Span(3, 3)];
    coalesce(&mut v, 1, Span(2, 2));
    assert_eq!(v, [Span(1, 1), Span(2, 2), Span(3, 3)]);
}

#[test]
fn coalesce_test_coalesce_twice() {
    let mut v: Vec<Span> = vec![];
    coalesce(&mut v, 0, Span(0, 1));
    coalesce(&mut v, 0, Span(-2, -1));
    coalesce(&mut v, 1, Span(-1, 0));
    assert_eq!(v, [Span(-2, 1)]);
}

#[test]
fn coalesce_test_search_and_coalesce() {
    let mut v: Vec<Span> = vec![];
    for el in vec![Span(0, 1), Span(-2, -1), Span(-1, 0)] {
        search_coalesce(&mut v, 0, el);
    }
    assert_eq!(v, [Span(-2, 1)]);
}

#[test]
fn coalesce_test_coalesce_subrange() {
    let mut v = vec![Span(0, 3)];
    coalesce(&mut v, 1, Span(1, 2));
    assert_eq!(v, [Span(0, 3)]);
}

#[test]
fn test_search_coalesce() {
    let mut v = vec![Span(0, 1), Span(2, 3), Span(4, 5), Span(6, 7)];
    assert_eq!(2, search_coalesce(&mut v, 1, Span(4, 5)));
}

#[test]
fn test_search_coalesce_2() {
    let mut v = vec![Span(0, 1), Span(2, 3), Span(4, 5), Span(6, 7)];
    assert_eq!(3, search_coalesce(&mut v, 1, Span(5, 6)));
    assert_eq!(v, [Span(0, 1), Span(2, 3), Span(4, 7)]);
}

#[test]
fn merge_coalesce_is_sort_and_coalesce() {
    // streaming a sorted run into a sorted vector coalesces exactly as
    // sorting the concatenation and coalescing linearly would
    let mut v = vec![Span(0, 1), Span(4, 5)];
    let other = vec![Span(1, 2), Span(6, 7)];
    merge_coalesce(&mut v, &other);
    assert_eq!(v, [Span(0, 2), Span(4, 5), Span(6, 7)]);

    let mut w = vec![Span(0, 1), Span(2, 3)];
    let other2 = vec![Span(1, 2), Span(3, 4)];
    merge_coalesce(&mut w, &other2);
    assert_eq!(w, [Span(0, 4)]);
}
