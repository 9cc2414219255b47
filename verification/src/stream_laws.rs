//! Laws of the analyzed stream and of the postings lists built from it:
//! every postings list the index stores is strictly increasing with no
//! mergeable neighbours, and its spans lie on character boundaries of the
//! document's content.

use vstd::prelude::*;
use crate::analysis::{Analyzer, is_word_start, starts_before, stream, stream_from, word_end,
    word_item, word_items, lemma_starts_before_bound, lemma_word_end_bounds};
use crate::chars::{byte_off, lemma_byte_off_mono, lemma_byte_off_step, lemma_byte_off_zero,
    whitespace_char};
use crate::coalesce::{Merge, spec_coalesce, spec_lower_from, spec_search_coalesce,
    lemma_lower_from_bounds};
use crate::index::{InvertedIndex, build_plist, dm_get, dm_has, item_pos, models, occs,
    plist, tm_get, tm_has};
use crate::postings::{Position, pm_get, pm_has, pm_union, pm_wf};
use crate::query::{Query, and_list, dedup_terms, in_range, lookup, pair_map, prefix_bound,
    query_matches, range_union, token_terms, union_of, union_views};

verus! {

/// A well-formed postings list: strictly increasing, with no pair of
/// neighbours that could merge.
pub open spec fn wf_plist(l: Seq<Position>) -> bool {
    &&& forall|i: int, j: int|
        0 <= i < j < l.len() ==> (#[trigger] l[i]).le(#[trigger] l[j]) && l[i] != l[j]
    &&& forall|i: int| 0 <= i < l.len() - 1 ==> (#[trigger] l[i]).merge_spec(l[i + 1]) is None
}

/// How a term's occurrences in one document relate, listed in stream
/// order: occurrences at the same token position share their begin offset
/// with ends never decreasing, and an occurrence at an earlier token
/// position ends before a later one begins.
pub open spec fn occ_rel(x: Position, y: Position) -> bool {
    &&& (x.position == y.position ==> x.offsets.0 == y.offsets.0 && x.offsets.1 <= y.offsets.1)
    &&& (x.position != y.position ==> x.position < y.position && x.offsets.1 < y.offsets.0)
}

/// An occurrence chain: every span non-empty, every ordered pair related.
pub open spec fn occ_chain(ps: Seq<Position>) -> bool {
    &&& forall|i: int| 0 <= i < ps.len() ==> (#[trigger] ps[i]).offsets.0 < ps[i].offsets.1
    &&& forall|i: int, j: int| 0 <= i < j < ps.len() ==> occ_rel(#[trigger] ps[i], #[trigger] ps[j])
}

/// Building a postings list from an occurrence chain yields a well-formed
/// list: one coalesced span per token position, in increasing order.  The
/// list's last element is exactly the chain's last occurrence.
#[verifier::rlimit(100)]
proof fn lemma_build_plist_wf_step(ps: Seq<Position>)
    requires
        occ_chain(ps),
    ensures
        wf_plist(build_plist(ps)),
        ps.len() > 0 <==> build_plist(ps).len() > 0,
        ps.len() > 0 ==> build_plist(ps).last() == ps.last(),
        forall|x: int|
            0 <= x < build_plist(ps).len() ==> exists|j: int|
                0 <= j < ps.len() && #[trigger] build_plist(ps)[x] == ps[j],
    decreases ps.len(),
{
    if ps.len() == 0 {
    } else {
        let front = ps.drop_last();
        let p = ps.last();
        assert(occ_chain(front)) by {
            assert forall|i: int, j: int|
                0 <= i < j < front.len() implies occ_rel(#[trigger] front[i], #[trigger] front[j]) by {
                assert(front[i] == ps[i] && front[j] == ps[j]);
            }
            assert forall|i: int|
                0 <= i < front.len() implies (#[trigger] front[i]).offsets.0 < front[i].offsets.1 by {
                assert(front[i] == ps[i]);
            }
        }
        lemma_build_plist_wf_step(front);
        let l = build_plist(front);
        let l2 = build_plist(ps);
        assert(l2 == spec_search_coalesce(l, 0, p).0);
        lemma_lower_from_bounds(l, 0, p);
        let i = spec_lower_from(l, 0, p);
        if front.len() == 0 {
            assert(l.len() == 0);
            assert(i == 0);
            assert(l2 == spec_coalesce(l, 0, p));
            assert(l2 =~= seq![p]);
            assert forall|x: int|
                0 <= x < l2.len() implies exists|j: int| 0 <= j < ps.len() && #[trigger] l2[x]
                == ps[j] by {
                assert(l2[0] == ps[ps.len() - 1]);
            }
        } else {
            let lastl = l.last();
            assert(lastl == front.last());
            assert(front.last() == ps[ps.len() - 2]);
            assert(occ_rel(ps[ps.len() - 2], p));
            // every element of the list below the last is strictly before p
            assert forall|x: int| 0 <= x < l.len() - 1 implies (#[trigger] l[x]).le(p) && l[x] != p
                && l[x].offsets.1 < p.offsets.0 by {
                let j = choose|j: int| 0 <= j < front.len() && #[trigger] l[x] == front[j];
                assert(front[j] == ps[j]);
                assert(l[x].le(lastl) && l[x] != lastl);
                // l[x] and the last list element differ, so they sit at
                // different token positions, and p sits at or after the
                // last element's position
                assert(occ_rel(ps[j], ps[ps.len() - 2]) || j == ps.len() - 2);
                assert(l[x].merge_spec(lastl) is None || x < l.len() - 1);
                assert(l[x].position != lastl.position) by {
                    if l[x].position == lastl.position {
                        assert(l[x].offsets.0 == lastl.offsets.0);
                        if x == l.len() - 2 {
                            assert(l[x].merge_spec(l[x + 1]) is None);
                            assert(l[x].offsets.1 >= l[x].offsets.0);
                        } else {
                            assert(l[x].le(l[l.len() - 2]) && l[x] != l[l.len() - 2]);
                            assert(l[l.len() - 2].merge_spec(l[l.len() - 1]) is None);
                            let j2 = choose|j2: int|
                                0 <= j2 < front.len() && #[trigger] l[l.len() - 2] == front[j2];
                            assert(occ_rel(ps[j2], ps[ps.len() - 2]) || j2 == ps.len() - 2);
                            assert(l[l.len() - 2].position != lastl.position ==> l[l.len()
                                - 2].offsets.1 < lastl.offsets.0);
                            assert(l[x].le(l[l.len() - 2]));
                        }
                    }
                }
                assert(occ_rel(ps[j], p) || ps[j] == p);
                if ps[j].position == p.position {
                    // same token position as p, but a different position
                    // from the last element, which shares p's position or
                    // precedes it
                    if lastl.position == p.position {
                        assert(false);
                    } else {
                        assert(occ_rel(ps[ps.len() - 2], p));
                        assert(lastl.position < p.position);
                        assert(occ_rel(ps[j], ps[ps.len() - 2]) || j == ps.len() - 2);
                        assert(ps[j].position != lastl.position);
                        assert(ps[j].position < lastl.position);
                        assert(false);
                    }
                }
                assert(ps[j].offsets.1 < p.offsets.0);
                assert(l[x].offsets.0 < l[x].offsets.1);
            }
            if p.position == lastl.position {
                // p extends the last span or equals it
                assert(p.offsets.0 == lastl.offsets.0 && lastl.offsets.1 <= p.offsets.1);
                if p == lastl {
                    assert(i == l.len() - 1) by {
                        assert(lastl.le(p));
                        assert(p.le(l[l.len() - 1]));
                        assert forall|x: int| 0 <= x < l.len() - 1 implies !p.le(#[trigger] l[x]) by {
                            assert(l[x].le(p) && l[x] != p);
                            Position::lemma_merge_laws(p, l[x], p);
                        }
                    }
                    assert(l2 == l);
                } else {
                    assert(i == l.len()) by {
                        assert forall|x: int| 0 <= x < l.len() implies !p.le(#[trigger] l[x]) by {
                            if x < l.len() - 1 {
                                Position::lemma_merge_laws(p, l[x], p);
                            } else {
                                assert(lastl.le(p));
                                if p.le(lastl) {
                                    Position::lemma_merge_laws(p, lastl, p);
                                }
                            }
                        }
                    }
                    assert(lastl.can_merge(p));
                    assert(l2 == spec_coalesce(l, i, p));
                    let m = lastl.merge_spec(p);
                    assert(m is Some);
                    assert(m->Some_0 == p) by {
                        assert(lastl.offsets.1 <= p.offsets.1);
                    }
                    assert(l2 =~= l.update(l.len() - 1, p));
                    assert forall|x: int, y: int|
                        0 <= x < y < l2.len() implies (#[trigger] l2[x]).le(#[trigger] l2[y])
                        && l2[x] != l2[y] by {
                        if y < l2.len() - 1 {
                            assert(l2[x] == l[x] && l2[y] == l[y]);
                        } else {
                            assert(l2[y] == p);
                            assert(l2[x] == l[x]);
                            assert(l[x].le(p) && l[x] != p);
                        }
                    }
                    assert forall|x: int|
                        0 <= x < l2.len() - 1 implies (#[trigger] l2[x]).merge_spec(
                        l2[x + 1],
                    ) is None by {
                        if x + 1 < l2.len() - 1 {
                            assert(l2[x] == l[x] && l2[x + 1] == l[x + 1]);
                        } else if l2.len() >= 2 {
                            assert(l2[x] == l[x] && l2[x + 1] == p);
                            assert(l[x].offsets.1 < p.offsets.0);
                        }
                    }
                    assert forall|x: int|
                        0 <= x < l2.len() implies exists|j: int| 0 <= j < ps.len()
                        && #[trigger] l2[x] == ps[j] by {
                        if x < l2.len() - 1 {
                            let j = choose|j: int| 0 <= j < front.len() && #[trigger] l[x] == front[j];
                            assert(l2[x] == ps[j]);
                        } else {
                            assert(l2[x] == ps[ps.len() - 1]);
                        }
                    }
                }
            } else {
                // p begins a new token position after the last span ends
                assert(lastl.position < p.position && lastl.offsets.1 < p.offsets.0);
                assert(i == l.len()) by {
                    assert forall|x: int| 0 <= x < l.len() implies !p.le(#[trigger] l[x]) by {
                        if x < l.len() - 1 {
                            Position::lemma_merge_laws(p, l[x], p);
                        } else {
                            assert(lastl.offsets.1 < p.offsets.0);
                            assert(lastl.offsets.0 < lastl.offsets.1) by {
                                let j = choose|j: int|
                                    0 <= j < front.len() && #[trigger] l[l.len() - 1] == front[j];
                                assert(front[j] == ps[j]);
                            }
                            if p.le(lastl) {
                            }
                        }
                    }
                }
                assert(lastl.can_merge(p));
                assert(l2 == spec_coalesce(l, i, p));
                assert(lastl.merge_spec(p) is None);
                assert(l2 =~= l.push(p));
                assert forall|x: int, y: int|
                    0 <= x < y < l2.len() implies (#[trigger] l2[x]).le(#[trigger] l2[y]) && l2[x]
                    != l2[y] by {
                    if y < l2.len() - 1 {
                        assert(l2[x] == l[x] && l2[y] == l[y]);
                    } else {
                        assert(l2[y] == p);
                        assert(l2[x] == l[x]);
                        if x < l.len() - 1 {
                            assert(l[x].offsets.1 < p.offsets.0);
                            assert(l[x].offsets.0 < l[x].offsets.1) by {
                                let j = choose|j: int|
                                    0 <= j < front.len() && #[trigger] l[x] == front[j];
                                assert(front[j] == ps[j]);
                            }
                        } else {
                            assert(lastl.offsets.1 < p.offsets.0);
                            assert(lastl.offsets.0 < lastl.offsets.1) by {
                                let j = choose|j: int|
                                    0 <= j < front.len() && #[trigger] l[x] == front[j];
                                assert(front[j] == ps[j]);
                            }
                        }
                    }
                }
                assert forall|x: int|
                    0 <= x < l2.len() - 1 implies (#[trigger] l2[x]).merge_spec(l2[x + 1]) is None by {
                    if x + 1 < l2.len() - 1 {
                        assert(l2[x] == l[x] && l2[x + 1] == l[x + 1]);
                    } else {
                        assert(l2[x] == l[l.len() - 1] && l2[x + 1] == p);
                    }
                }
                assert forall|x: int|
                    0 <= x < l2.len() implies exists|j: int| 0 <= j < ps.len() && #[trigger] l2[x]
                    == ps[j] by {
                    if x < l2.len() - 1 {
                        let j = choose|j: int| 0 <= j < front.len() && #[trigger] l[x] == front[j];
                        assert(l2[x] == ps[j]);
                    } else {
                        assert(l2[x] == ps[ps.len() - 1]);
                    }
                }
            }
        }
    }
}

/// A postings list built from an occurrence chain is well-formed; it is
/// non-empty exactly when the chain is, ends with the chain's last
/// occurrence, and draws every element from the chain.
pub proof fn lemma_build_plist_wf(ps: Seq<Position>)
    requires
        occ_chain(ps),
    ensures
        wf_plist(build_plist(ps)),
        ps.len() > 0 <==> build_plist(ps).len() > 0,
        ps.len() > 0 ==> build_plist(ps).last() == ps.last(),
        forall|x: int|
            0 <= x < build_plist(ps).len() ==> exists|j: int|
                0 <= j < ps.len() && #[trigger] build_plist(ps)[x] == ps[j],
{
    lemma_build_plist_wf_step(ps);
}

/// The token counter never decreases along the content.
pub proof fn lemma_starts_before_mono(s: Seq<char>, i: int, j: int)
    requires
        i <= j,
    ensures
        starts_before(s, i) <= starts_before(s, j),
    decreases j - i,
{
    if i < j {
        lemma_starts_before_mono(s, i, j - 1);
    }
}

/// A stream item's provenance: it spans a non-empty prefix range of the
/// word starting at some `ws` at or after `i`, and carries that word's
/// token position.
pub open spec fn item_prov(s: Seq<char>, i: int, it: (Seq<char>, int, int, int)) -> bool {
    exists|ws: int, k: int|
        #![trigger is_word_start(s, ws), byte_off(s, ws + k)]
        is_word_start(s, ws) && i <= ws && 1 <= k <= word_end(s, ws) - ws && it.1 == byte_off(
            s,
            ws,
        ) && it.2 == byte_off(s, ws + k) && it.3 == starts_before(s, ws)
}

/// How two stream items relate, the first strictly earlier in the stream.
pub open spec fn item_rel(x: (Seq<char>, int, int, int), y: (Seq<char>, int, int, int)) -> bool {
    &&& (x.3 == y.3 ==> x.1 == y.1 && x.2 <= y.2)
    &&& (x.3 != y.3 ==> x.3 < y.3 && x.2 < y.1)
}

/// The geometry of the analyzed stream: every item spans a non-empty byte
/// range of one word, starting at the word's begin offset and carrying the
/// word's token position; items of the same word share their begin with
/// ends growing, and items of distinct words are strictly separated.
pub proof fn lemma_stream_geometry(a: Analyzer, s: Seq<char>, i: int)
    requires
        0 <= i <= s.len(),
    ensures
        forall|x: int|
            0 <= x < stream_from(a, s, i).len() ==> item_prov(
                s,
                i,
                #[trigger] stream_from(a, s, i)[x],
            ),
        forall|x: int|
            0 <= x < stream_from(a, s, i).len() ==> (#[trigger] stream_from(a, s, i)[x]).1
                < stream_from(a, s, i)[x].2,
        forall|x: int, y: int|
            0 <= x < y < stream_from(a, s, i).len() ==> item_rel(
                #[trigger] stream_from(a, s, i)[x],
                #[trigger] stream_from(a, s, i)[y],
            ),
    decreases s.len() - i,
{
    if i >= s.len() {
    } else if !is_word_start(s, i) {
        lemma_stream_geometry(a, s, i + 1);
        assert(stream_from(a, s, i) =~= stream_from(a, s, i + 1));
    } else {
        lemma_stream_geometry(a, s, i + 1);
        lemma_word_end_bounds(s, i);
        let we = word_end(s, i);
        assert(we > i) by {
            assert(!whitespace_char(s[i]));
        }
        let head = word_items(a, s, i);
        let tail = stream_from(a, s, i + 1);
        let whole = stream_from(a, s, i);
        assert(whole == head + tail);
        let hlen = head.len() as int;
        // the head items all belong to the word starting here
        assert forall|x: int| 0 <= x < hlen implies item_prov(s, i, #[trigger] head[x]) by {
            match a {
                Analyzer::Whitespace => {
                    assert(head[x] == word_item(s, i, we - i, starts_before(s, i)));
                    assert(is_word_start(s, i) && i <= i && 1 <= we - i <= word_end(s, i) - i && (
                    head[x]).1 == byte_off(s, i) && head[x].2 == byte_off(s, i + (we - i))
                        && head[x].3 == starts_before(s, i));
                },
                Analyzer::Ngrams => {
                    assert(head[x] == word_item(s, i, x + 1, starts_before(s, i)));
                    assert(is_word_start(s, i) && i <= i && 1 <= x + 1 <= word_end(s, i) - i && (
                    head[x]).1 == byte_off(s, i) && head[x].2 == byte_off(s, i + (x + 1))
                        && head[x].3 == starts_before(s, i));
                },
            }
        }
        // every later word begins after this word ends
        assert forall|ws: int|
            is_word_start(s, ws) && i + 1 <= ws implies we + 1 <= ws by {
            assert(whitespace_char(s[ws - 1]));
            if ws - 1 < we {
                assert(!whitespace_char(s[ws - 1]));
            }
        }
        assert forall|x: int| 0 <= x < whole.len() implies (#[trigger] whole[x]).1 < whole[x].2 by {
            if x < hlen {
                assert(item_prov(s, i, head[x]));
                let (ws, k) = choose|ws: int, k: int|
                    #![trigger is_word_start(s, ws), byte_off(s, ws + k)]
                    is_word_start(s, ws) && i <= ws && 1 <= k <= word_end(s, ws) - ws && head[x].1
                        == byte_off(s, ws) && head[x].2 == byte_off(s, ws + k) && head[x].3
                        == starts_before(s, ws);
                lemma_word_end_bounds(s, ws);
                lemma_byte_off_mono(s, ws, ws + k);
            } else {
                assert(whole[x] == tail[x - hlen]);
            }
        }
        assert forall|x: int, y: int|
            0 <= x < y < whole.len() implies item_rel(#[trigger] whole[x], #[trigger] whole[y]) by {
            if y < hlen {
                // two items of the same word
                assert(whole[x] == head[x] && whole[y] == head[y]);
                match a {
                    Analyzer::Whitespace => {
                    },
                    Analyzer::Ngrams => {
                        assert(head[x] == word_item(s, i, x + 1, starts_before(s, i)));
                        assert(head[y] == word_item(s, i, y + 1, starts_before(s, i)));
                        lemma_byte_off_mono(s, i + (x + 1), i + (y + 1));
                    },
                }
            } else if x >= hlen {
                assert(whole[x] == tail[x - hlen] && whole[y] == tail[y - hlen]);
            } else {
                // an item of this word against one of a later word
                assert(whole[x] == head[x] && whole[y] == tail[y - hlen]);
                assert(item_prov(s, i + 1, tail[y - hlen]));
                let (ws, k) = choose|ws: int, k: int|
                    #![trigger is_word_start(s, ws), byte_off(s, ws + k)]
                    is_word_start(s, ws) && i + 1 <= ws && 1 <= k <= word_end(s, ws) - ws
                        && tail[y - hlen].1 == byte_off(s, ws) && tail[y - hlen].2 == byte_off(
                        s,
                        ws + k,
                    ) && tail[y - hlen].3 == starts_before(s, ws);
                let (wsx, kx) = choose|wsx: int, kx: int|
                    #![trigger is_word_start(s, wsx), byte_off(s, wsx + kx)]
                    is_word_start(s, wsx) && i <= wsx && 1 <= kx <= word_end(s, wsx) - wsx
                        && head[x].1 == byte_off(s, wsx) && head[x].2 == byte_off(s, wsx + kx)
                        && head[x].3 == starts_before(s, wsx);
                assert(wsx == i) by {
                    match a {
                        Analyzer::Whitespace => {
                            assert(head[x] == word_item(s, i, we - i, starts_before(s, i)));
                            assert(byte_off(s, wsx) == byte_off(s, i));
                            if wsx < i {
                                lemma_byte_off_mono(s, wsx, i);
                            }
                            if wsx > i {
                                lemma_byte_off_mono(s, i, wsx);
                            }
                        },
                        Analyzer::Ngrams => {
                            assert(head[x] == word_item(s, i, x + 1, starts_before(s, i)));
                            assert(byte_off(s, wsx) == byte_off(s, i));
                            if wsx < i {
                                lemma_byte_off_mono(s, wsx, i);
                            }
                            if wsx > i {
                                lemma_byte_off_mono(s, i, wsx);
                            }
                        },
                    }
                }
                assert(we + 1 <= ws);
                // the earlier item ends inside its word, before the later
                // word's begin
                assert(head[x].2 <= byte_off(s, we)) by {
                    lemma_byte_off_mono(s, i + kx, we);
                }
                assert(byte_off(s, we) < byte_off(s, ws)) by {
                    lemma_byte_off_step(s, we);
                    lemma_byte_off_mono(s, we + 1, ws);
                    assert(byte_off(s, we) < byte_off(s, we + 1));
                }
                assert(head[x].3 < tail[y - hlen].3) by {
                    lemma_starts_before_mono(s, i + 1, ws);
                    assert(starts_before(s, i + 1) == starts_before(s, i) + 1);
                }
            }
        }
        // provenance for the whole stream
        assert forall|x: int| 0 <= x < whole.len() implies item_prov(s, i, #[trigger] whole[x]) by {
            if x < hlen {
                assert(whole[x] == head[x]);
            } else {
                assert(whole[x] == tail[x - hlen]);
                assert(item_prov(s, i + 1, tail[x - hlen]));
                let (ws, k) = choose|ws: int, k: int|
                    #![trigger is_word_start(s, ws), byte_off(s, ws + k)]
                    is_word_start(s, ws) && i + 1 <= ws && 1 <= k <= word_end(s, ws) - ws
                        && tail[x - hlen].1 == byte_off(s, ws) && tail[x - hlen].2 == byte_off(
                        s,
                        ws + k,
                    ) && tail[x - hlen].3 == starts_before(s, ws);
                assert(i <= ws);
            }
        }
    }
}

/// Every character takes at least one byte: a byte offset is at least its
/// character index.
pub proof fn lemma_byte_off_lb(s: Seq<char>, n: int)
    requires
        0 <= n <= s.len(),
    ensures
        byte_off(s, n) >= n,
    decreases n,
{
    if n == 0 {
        lemma_byte_off_zero(s);
    } else {
        lemma_byte_off_lb(s, n - 1);
        lemma_byte_off_step(s, n - 1);
    }
}

/// A stream item's fields fit the machine: needed for the cast from the
/// mathematical stream to stored positions.
pub open spec fn item_ok(it: (Seq<char>, int, int, int)) -> bool {
    &&& 0 <= it.1 < it.2 <= usize::MAX
    &&& 0 <= it.3 <= usize::MAX
}

/// The occurrences of a term in a stream of well-related items form an
/// occurrence chain.
pub proof fn lemma_occs_chain(items: Seq<(Seq<char>, int, int, int)>, t: Seq<char>)
    requires
        forall|x: int| 0 <= x < items.len() ==> item_ok(#[trigger] items[x]),
        forall|x: int, y: int|
            0 <= x < y < items.len() ==> item_rel(#[trigger] items[x], #[trigger] items[y]),
    ensures
        occ_chain(occs(items, t)),
        forall|x: int|
            0 <= x < occs(items, t).len() ==> exists|idx: int|
                #![auto]
                0 <= idx < items.len() && #[trigger] occs(items, t)[x] == item_pos(items[idx]),
    decreases items.len(),
{
    if items.len() == 0 {
    } else {
        let rest = items.drop_first();
        assert forall|x: int| 0 <= x < rest.len() implies item_ok(#[trigger] rest[x]) by {
            assert(rest[x] == items[x + 1]);
        }
        assert forall|x: int, y: int|
            0 <= x < y < rest.len() implies item_rel(#[trigger] rest[x], #[trigger] rest[y]) by {
            assert(rest[x] == items[x + 1] && rest[y] == items[y + 1]);
        }
        lemma_occs_chain(rest, t);
        let u = occs(items, t);
        let ur = occs(rest, t);
        if items[0].0 == t {
            assert(u == seq![item_pos(items[0])] + ur);
            assert(u[0] == item_pos(items[0]));
            assert forall|x: int| 0 <= x < u.len() implies exists|idx: int|
                #![auto]
                0 <= idx < items.len() && #[trigger] u[x] == item_pos(items[idx]) by {
                if x == 0 {
                    assert(u[0] == item_pos(items[0]));
                } else {
                    assert(u[x] == ur[x - 1]);
                    let idx = choose|idx: int|
                        #![auto]
                        0 <= idx < rest.len() && ur[x - 1] == item_pos(rest[idx]);
                    assert(u[x] == item_pos(items[idx + 1]));
                }
            }
            assert forall|x: int| 0 <= x < u.len() implies (#[trigger] u[x]).offsets.0
                < u[x].offsets.1 by {
                if x == 0 {
                    assert(item_ok(items[0]));
                } else {
                    assert(u[x] == ur[x - 1]);
                }
            }
            assert forall|x: int, y: int|
                0 <= x < y < u.len() implies occ_rel(#[trigger] u[x], #[trigger] u[y]) by {
                if x == 0 {
                    assert(u[y] == ur[y - 1]);
                    let idx = choose|idx: int|
                        #![auto]
                        0 <= idx < rest.len() && ur[y - 1] == item_pos(rest[idx]);
                    assert(rest[idx] == items[idx + 1]);
                    assert(item_rel(items[0], items[idx + 1]));
                    assert(item_ok(items[0]) && item_ok(items[idx + 1]));
                } else {
                    assert(u[x] == ur[x - 1] && u[y] == ur[y - 1]);
                }
            }
        } else {
            assert(u =~= ur);
            assert forall|x: int| 0 <= x < u.len() implies exists|idx: int|
                #![auto]
                0 <= idx < items.len() && #[trigger] u[x] == item_pos(items[idx]) by {
                let idx = choose|idx: int|
                    #![auto]
                    0 <= idx < rest.len() && ur[x] == item_pos(rest[idx]);
                assert(u[x] == item_pos(items[idx + 1]));
            }
        }
    }
}

/// Every postings list of term `t` the canonical index records is strictly
/// increasing with no pair of mergeable neighbours.
pub proof fn lemma_plist_wf(a: Analyzer, c: Seq<char>, t: Seq<char>)
    requires
        crate::search_result::content_bytes(c) <= usize::MAX,
    ensures
        wf_plist(plist(a, c, t)),
{
    let items = stream(a, c);
    lemma_stream_geometry(a, c, 0);
    assert(byte_off(c, c.len() as int) == crate::search_result::content_bytes(c)) by {
        assert(c.take(c.len() as int) =~= c);
    }
    assert forall|x: int| 0 <= x < items.len() implies item_ok(#[trigger] items[x]) by {
        assert(item_prov(c, 0, items[x]));
        let (ws, k) = choose|ws: int, k: int|
            #![trigger is_word_start(c, ws), byte_off(c, ws + k)]
            is_word_start(c, ws) && 0 <= ws && 1 <= k <= word_end(c, ws) - ws && items[x].1
                == byte_off(c, ws) && items[x].2 == byte_off(c, ws + k) && items[x].3
                == starts_before(c, ws);
        lemma_word_end_bounds(c, ws);
        lemma_byte_off_zero(c);
        lemma_byte_off_mono(c, 0, ws);
        lemma_byte_off_mono(c, ws + k, c.len() as int);
        lemma_starts_before_bound(c, ws);
        lemma_byte_off_lb(c, ws);
    }
    lemma_occs_chain(items, t);
    lemma_build_plist_wf(occs(items, t));
}

/// The index's invariant pins every stored postings list to the canonical
/// one, so every stored list is strictly increasing and fully coalesced.
pub proof fn lemma_index_lists_wf(x: InvertedIndex, t: Seq<char>, id: u64)
    requires
        x.inv(),
        tm_has(x.tm_view(), t),
        crate::postings::pm_has(tm_get(x.tm_view(), t), id),
        crate::search_result::content_bytes(dm_get(x.dm_view(), id)) <= usize::MAX,
    ensures
        wf_plist(crate::postings::pm_get(tm_get(x.tm_view(), t), id)),
{
    assert(crate::postings::pm_get(tm_get(x.tm_view(), t), id) == plist(
        x.doc_analyzer,
        dm_get(x.dm_view(), id),
        t,
    ));
    lemma_plist_wf(x.doc_analyzer, dm_get(x.dm_view(), id), t);
}

/// A span that renders into content `c`: both offsets on character
/// boundaries, in order, within the content's bytes.
pub open spec fn span_ok(p: Position, c: Seq<char>) -> bool {
    &&& crate::search_result::boundary(c, p.offsets.0 as int)
    &&& crate::search_result::boundary(c, p.offsets.1 as int)
    &&& p.offsets.0 <= p.offsets.1
    &&& p.offsets.1 <= crate::search_result::content_bytes(c)
}

/// All of a list's spans render into content `c`.
pub open spec fn spans_ok(l: Seq<Position>, c: Seq<char>) -> bool {
    forall|i: int| 0 <= i < l.len() ==> span_ok(#[trigger] l[i], c)
}

/// Merging two renderable spans gives a renderable span.
proof fn lemma_merge_span(a: Position, b: Position, c: Seq<char>)
    requires
        span_ok(a, c),
        span_ok(b, c),
        a.merge_spec(b) is Some,
    ensures
        span_ok(a.merge_spec(b)->Some_0, c),
{
}

/// Coalescing a renderable span into a renderable list keeps every span
/// renderable.
proof fn lemma_coalesce_spans(s: Seq<Position>, i: int, el: Position, c: Seq<char>)
    requires
        spans_ok(s, c),
        span_ok(el, c),
        0 <= i <= s.len(),
    ensures
        spans_ok(spec_coalesce(s, i, el), c),
{
    let t = spec_coalesce(s, i, el);
    if s.len() == 0 {
        assert forall|x: int| 0 <= x < t.len() implies span_ok(#[trigger] t[x], c) by {
            assert(t[x] == el);
        }
    } else if i == 0 {
        match el.merge_spec(s[0]) {
            Some(m) => {
                lemma_merge_span(el, s[0], c);
                assert forall|x: int| 0 <= x < t.len() implies span_ok(#[trigger] t[x], c) by {
                    if x != 0 {
                        assert(t[x] == s[x]);
                    }
                }
            },
            None => {
                assert forall|x: int| 0 <= x < t.len() implies span_ok(#[trigger] t[x], c) by {
                    if x > 0 {
                        assert(t[x] == s[x - 1]);
                    } else {
                        assert(t[0] == el);
                    }
                }
            },
        }
    } else if i == s.len() {
        match s[i - 1].merge_spec(el) {
            Some(m) => {
                lemma_merge_span(s[i - 1], el, c);
                assert forall|x: int| 0 <= x < t.len() implies span_ok(#[trigger] t[x], c) by {
                    if x != i - 1 {
                        assert(t[x] == s[x]);
                    }
                }
            },
            None => {
                assert forall|x: int| 0 <= x < t.len() implies span_ok(#[trigger] t[x], c) by {
                    if x < s.len() {
                        assert(t[x] == s[x]);
                    } else {
                        assert(t[x] == el);
                    }
                }
            },
        }
    } else {
        match s[i - 1].merge_spec(el) {
            Some(m) => {
                lemma_merge_span(s[i - 1], el, c);
                match m.merge_spec(s[i]) {
                    Some(m2) => {
                        lemma_merge_span(m, s[i], c);
                        assert forall|x: int| 0 <= x < t.len() implies span_ok(#[trigger] t[x], c) by {
                            if x < i - 1 {
                                assert(t[x] == s[x]);
                            } else if x == i - 1 {
                                assert(t[x] == m2);
                            } else {
                                assert(t[x] == s[x + 1]);
                            }
                        }
                    },
                    None => {
                        assert forall|x: int| 0 <= x < t.len() implies span_ok(#[trigger] t[x], c) by {
                            if x != i - 1 {
                                assert(t[x] == s[x]);
                            }
                        }
                    },
                }
            },
            None => {
                match el.merge_spec(s[i]) {
                    Some(m) => {
                        lemma_merge_span(el, s[i], c);
                        assert forall|x: int| 0 <= x < t.len() implies span_ok(#[trigger] t[x], c) by {
                            if x != i {
                                assert(t[x] == s[x]);
                            }
                        }
                    },
                    None => {
                        assert forall|x: int| 0 <= x < t.len() implies span_ok(#[trigger] t[x], c) by {
                            if x < i {
                                assert(t[x] == s[x]);
                            } else if x == i {
                                assert(t[x] == el);
                            } else {
                                assert(t[x] == s[x - 1]);
                            }
                        }
                    },
                }
            },
        }
    }
}

/// Searching-and-coalescing keeps every span renderable.
proof fn lemma_search_coalesce_spans(s: Seq<Position>, start: int, el: Position, c: Seq<char>)
    requires
        spans_ok(s, c),
        span_ok(el, c),
    ensures
        spans_ok(spec_search_coalesce(s, start, el).0, c),
{
    let i = spec_lower_from(s, start, el);
    lemma_lower_from_bounds_total(s, start, el);
    let t = spec_search_coalesce(s, start, el).0;
    if i < s.len() && s[i] == el {
    } else if 0 < i && !s[i - 1].can_merge(el) {
        assert(t == s.insert(i, el));
        assert forall|x: int| 0 <= x < t.len() implies span_ok(#[trigger] t[x], c) by {
            if x < i {
                assert(t[x] == s[x]);
            } else if x == i {
                assert(t[x] == el);
            } else {
                assert(t[x] == s[x - 1]);
            }
        }
    } else {
        lemma_coalesce_spans(s, i, el, c);
    }
}

/// `spec_lower_from` stays within bounds for any start.
proof fn lemma_lower_from_bounds_total(s: Seq<Position>, start: int, el: Position)
    ensures
        0 <= spec_lower_from(s, start, el) <= s.len(),
    decreases s.len() - start,
{
    if 0 <= start && start < s.len() && !el.le(s[start]) {
        lemma_lower_from_bounds_total(s, start + 1, el);
    }
}

/// Stream-merging a renderable list into a renderable list keeps every
/// span renderable.
pub proof fn lemma_merge_coalesce_spans(s: Seq<Position>, idx: int, other: Seq<Position>, c: Seq<char>)
    requires
        spans_ok(s, c),
        spans_ok(other, c),
    ensures
        spans_ok(crate::coalesce::spec_merge_coalesce(s, idx, other).0, c),
    decreases other.len(),
{
    if other.len() > 0 {
        let (s2, idx2) = spec_search_coalesce(s, idx, other[0]);
        lemma_search_coalesce_spans(s, idx, other[0], c);
        assert forall|i: int| 0 <= i < other.drop_first().len() implies span_ok(
            #[trigger] other.drop_first()[i],
            c,
        ) by {
            assert(other.drop_first()[i] == other[i + 1]);
        }
        lemma_merge_coalesce_spans(s2, idx2, other.drop_first(), c);
    }
}

/// The positional intersection draws every span from its two inputs.
pub proof fn lemma_positional_spans(
    l: Seq<Position>,
    r: Seq<Position>,
    i: int,
    j: int,
    acc: Seq<Position>,
    c: Seq<char>,
)
    requires
        spans_ok(l, c),
        spans_ok(r, c),
        spans_ok(acc, c),
    ensures
        spans_ok(crate::postings::spec_positional(l, r, i, j, acc), c),
    decreases l.len() - i, r.len() - j,
{
    if i < 0 || j < 0 || i >= l.len() || j >= r.len() {
    } else if l[i].position < r[j].position {
        if l[i].position + 1 == r[j].position {
            let acc2 = if acc.len() > 0 && acc.last() == l[i] {
                acc
            } else {
                acc.push(l[i])
            };
            assert(spans_ok(acc2, c)) by {
                assert forall|x: int| 0 <= x < acc2.len() implies span_ok(#[trigger] acc2[x], c) by {
                    if x < acc.len() {
                        assert(acc2[x] == acc[x]);
                    } else {
                        assert(acc2[x] == l[i]);
                    }
                }
            }
            assert(spans_ok(acc2.push(r[j]), c)) by {
                assert forall|x: int|
                    0 <= x < acc2.push(r[j]).len() implies span_ok(#[trigger] acc2.push(r[j])[x], c) by {
                    if x < acc2.len() {
                        assert(acc2.push(r[j])[x] == acc2[x]);
                    } else {
                        assert(acc2.push(r[j])[x] == r[j]);
                    }
                }
            }
            lemma_positional_spans(l, r, i + 1, j + 1, acc2.push(r[j]), c);
        } else {
            lemma_positional_spans(l, r, i + 1, j, acc, c);
        }
    } else {
        lemma_positional_spans(l, r, i, j + 1, acc, c);
    }
}

/// The canonical postings list of any term renders into its content.
pub proof fn lemma_plist_spans(a: Analyzer, c: Seq<char>, t: Seq<char>)
    requires
        crate::search_result::content_bytes(c) <= usize::MAX,
    ensures
        spans_ok(plist(a, c, t), c),
{
    let items = stream(a, c);
    lemma_stream_geometry(a, c, 0);
    assert(byte_off(c, c.len() as int) == crate::search_result::content_bytes(c)) by {
        assert(c.take(c.len() as int) =~= c);
    }
    let ps = occs(items, t);
    lemma_occs_chain_requires(items, c);
    lemma_occs_chain(items, t);
    assert(spans_ok(ps, c)) by {
        assert forall|x: int| 0 <= x < ps.len() implies span_ok(#[trigger] ps[x], c) by {
            let idx = choose|idx: int|
                #![auto]
                0 <= idx < items.len() && ps[x] == item_pos(items[idx]);
            assert(item_prov(c, 0, items[idx]));
            let (ws, k) = choose|ws: int, k: int|
                #![trigger is_word_start(c, ws), byte_off(c, ws + k)]
                is_word_start(c, ws) && 0 <= ws && 1 <= k <= word_end(c, ws) - ws && items[idx].1
                    == byte_off(c, ws) && items[idx].2 == byte_off(c, ws + k) && items[idx].3
                    == starts_before(c, ws);
            lemma_word_end_bounds(c, ws);
            lemma_byte_off_zero(c);
            lemma_byte_off_mono(c, 0, ws);
            lemma_byte_off_mono(c, ws, ws + k);
            lemma_byte_off_mono(c, ws + k, c.len() as int);
        }
    }
    // the canonical list is built by searching-and-coalescing every
    // occurrence in turn
    lemma_build_plist_spans(ps, c);
}

/// The item facts needed by the chain lemma hold of a real content's
/// stream.
proof fn lemma_occs_chain_requires(items: Seq<(Seq<char>, int, int, int)>, c: Seq<char>)
    requires
        items == stream(Analyzer::Whitespace, c) || items == stream(Analyzer::Ngrams, c),
        crate::search_result::content_bytes(c) <= usize::MAX,
    ensures
        forall|x: int| 0 <= x < items.len() ==> item_ok(#[trigger] items[x]),
{
    let a: Analyzer = if items == stream(Analyzer::Whitespace, c) {
        Analyzer::Whitespace
    } else {
        Analyzer::Ngrams
    };
    lemma_stream_geometry(a, c, 0);
    assert(byte_off(c, c.len() as int) == crate::search_result::content_bytes(c)) by {
        assert(c.take(c.len() as int) =~= c);
    }
    assert forall|x: int| 0 <= x < items.len() implies item_ok(#[trigger] items[x]) by {
        assert(item_prov(c, 0, items[x]));
        let (ws, k) = choose|ws: int, k: int|
            #![trigger is_word_start(c, ws), byte_off(c, ws + k)]
            is_word_start(c, ws) && 0 <= ws && 1 <= k <= word_end(c, ws) - ws && items[x].1
                == byte_off(c, ws) && items[x].2 == byte_off(c, ws + k) && items[x].3
                == starts_before(c, ws);
        lemma_word_end_bounds(c, ws);
        lemma_byte_off_zero(c);
        lemma_byte_off_mono(c, 0, ws);
        lemma_byte_off_mono(c, ws + k, c.len() as int);
        lemma_starts_before_bound(c, ws);
        lemma_byte_off_lb(c, ws);
    }
}

/// Building a list from renderable occurrences keeps every span
/// renderable.
proof fn lemma_build_plist_spans(ps: Seq<Position>, c: Seq<char>)
    requires
        spans_ok(ps, c),
    ensures
        spans_ok(build_plist(ps), c),
    decreases ps.len(),
{
    if ps.len() > 0 {
        assert forall|i: int| 0 <= i < ps.drop_last().len() implies span_ok(
            #[trigger] ps.drop_last()[i],
            c,
        ) by {
            assert(ps.drop_last()[i] == ps[i]);
        }
        lemma_build_plist_spans(ps.drop_last(), c);
        lemma_search_coalesce_spans(build_plist(ps.drop_last()), 0, ps.last(), c);
    }
}

/// Every list of a postings map renders into its document's stored
/// content.
pub open spec fn map_spans_ok(
    mv: Seq<(u64, Seq<Position>)>,
    dv: Seq<(u64, Seq<char>)>,
) -> bool {
    forall|id: u64| #[trigger] pm_has(mv, id) ==> spans_ok(pm_get(mv, id), dm_get(dv, id))
}

/// The index's own postings lists render into their documents.
proof fn lemma_index_map_spans(
    a: Analyzer,
    iv: Seq<(Seq<char>, Seq<(u64, Seq<Position>)>)>,
    dv: Seq<(u64, Seq<char>)>,
    t: Seq<char>,
)
    requires
        models(a, iv, dv),
        forall|id: u64|
            dm_has(dv, id) ==> crate::search_result::content_bytes(#[trigger] dm_get(dv, id))
                <= usize::MAX,
        tm_has(iv, t),
    ensures
        map_spans_ok(tm_get(iv, t), dv),
{
    assert forall|id: u64| #[trigger] pm_has(tm_get(iv, t), id) implies spans_ok(
        pm_get(tm_get(iv, t), id),
        dm_get(dv, id),
    ) by {
        assert(dm_has(dv, id));
        assert(pm_get(tm_get(iv, t), id) == plist(a, dm_get(dv, id), t));
        lemma_plist_spans(a, dm_get(dv, id), t);
    }
}

/// The ordered union of two maps whose lists render keeps every list
/// rendering.
proof fn lemma_union_spans(
    a: Seq<(u64, Seq<Position>)>,
    b: Seq<(u64, Seq<Position>)>,
    dv: Seq<(u64, Seq<char>)>,
)
    requires
        pm_wf(a),
        pm_wf(b),
        map_spans_ok(a, dv),
        map_spans_ok(b, dv),
    ensures
        map_spans_ok(pm_union(a, b), dv),
{
    crate::postings::lemma_pm_union_props(a, b);
    assert forall|id: u64| #[trigger] pm_has(pm_union(a, b), id) implies spans_ok(
        pm_get(pm_union(a, b), id),
        dm_get(dv, id),
    ) by {
        if pm_has(a, id) && pm_has(b, id) {
            lemma_merge_coalesce_spans(pm_get(a, id), 0, pm_get(b, id), dm_get(dv, id));
        }
    }
}

/// The union of term postings keeps every list rendering.
proof fn lemma_union_of_spans(
    a: Analyzer,
    iv: Seq<(Seq<char>, Seq<(u64, Seq<Position>)>)>,
    dv: Seq<(u64, Seq<char>)>,
    ts: Seq<Seq<char>>,
)
    requires
        models(a, iv, dv),
        forall|id: u64|
            dm_has(dv, id) ==> crate::search_result::content_bytes(#[trigger] dm_get(dv, id))
                <= usize::MAX,
    ensures
        map_spans_ok(union_of(iv, ts), dv),
        pm_wf(union_of(iv, ts)),
    decreases ts.len(),
{
    crate::query::lemma_union_of_props(iv, ts);
    if ts.len() == 0 {
        assert forall|id: u64| #[trigger] pm_has(union_of(iv, ts), id) implies spans_ok(
            pm_get(union_of(iv, ts), id),
            dm_get(dv, id),
        ) by {
            crate::postings::lemma_pm_find_props(union_of(iv, ts), id);
        }
    } else {
        lemma_union_of_spans(a, iv, dv, ts.drop_last());
        let lk = lookup(iv, ts.last());
        assert(pm_wf(lk) && map_spans_ok(lk, dv)) by {
            if tm_has(iv, ts.last()) {
                crate::index::lemma_tm_find_props(iv, ts.last());
                lemma_index_map_spans(a, iv, dv, ts.last());
            } else {
                assert forall|id: u64| #[trigger] pm_has(lk, id) implies spans_ok(
                    pm_get(lk, id),
                    dm_get(dv, id),
                ) by {
                    crate::postings::lemma_pm_find_props(lk, id);
                }
            }
        }
        lemma_union_spans(union_of(iv, ts.drop_last()), lk, dv);
    }
}

/// The range union of a prefix scan keeps every list rendering.
proof fn lemma_range_union_spans(
    a: Analyzer,
    iv: Seq<(Seq<char>, Seq<(u64, Seq<Position>)>)>,
    dv: Seq<(u64, Seq<char>)>,
    k: int,
    lo: Seq<char>,
    hi: Option<Seq<char>>,
)
    requires
        models(a, iv, dv),
        forall|id: u64|
            dm_has(dv, id) ==> crate::search_result::content_bytes(#[trigger] dm_get(dv, id))
                <= usize::MAX,
        k <= iv.len(),
    ensures
        map_spans_ok(range_union(iv, k, lo, hi), dv),
        pm_wf(range_union(iv, k, lo, hi)),
    decreases k,
{
    crate::query::lemma_range_union_props(iv, k, lo, hi);
    if k <= 0 {
        assert forall|id: u64| #[trigger] pm_has(range_union(iv, k, lo, hi), id) implies spans_ok(
            pm_get(range_union(iv, k, lo, hi), id),
            dm_get(dv, id),
        ) by {
            crate::postings::lemma_pm_find_props(range_union(iv, k, lo, hi), id);
        }
    } else {
        lemma_range_union_spans(a, iv, dv, k - 1, lo, hi);
        if in_range(iv[k - 1].0, lo, hi) {
            crate::index::lemma_tm_at_find(iv, k - 1);
            assert(tm_has(iv, iv[k - 1].0));
            assert(tm_get(iv, iv[k - 1].0) == iv[k - 1].1);
            lemma_index_map_spans(a, iv, dv, iv[k - 1].0);
            lemma_union_spans(range_union(iv, k - 1, lo, hi), iv[k - 1].1, dv);
        }
    }
}

/// Every position of every postings map a query evaluates to is a
/// renderable span of its document's stored content: begin and end lie on
/// character boundaries, in order, within the content.
pub proof fn lemma_query_spans(
    iv: Seq<(Seq<char>, Seq<(u64, Seq<Position>)>)>,
    dv: Seq<(u64, Seq<char>)>,
    da: Analyzer,
    qa: Analyzer,
    q: Query,
    rv: Seq<(u64, Seq<Position>)>,
)
    requires
        models(da, iv, dv),
        query_matches(iv, qa, q, rv),
        forall|id: u64|
            dm_has(dv, id) ==> crate::search_result::content_bytes(#[trigger] dm_get(dv, id))
                <= usize::MAX,
    ensures
        map_spans_ok(rv, dv),
    decreases q,
{
    broadcast use vstd::std_specs::vec::axiom_vec_decreases_to_view;

    match q {
        Query::Match(s) => {
            lemma_union_of_spans(da, iv, dv, dedup_terms(token_terms(qa, s@)));
        },
        Query::Prefix(s) => {
            if s@.len() == 0 {
                assert forall|id: u64| #[trigger] pm_has(rv, id) implies spans_ok(
                    pm_get(rv, id),
                    dm_get(dv, id),
                ) by {
                    crate::postings::lemma_pm_find_props(rv, id);
                }
            } else {
                let hi = choose|hi: Option<Seq<char>>|
                    #![auto]
                    prefix_bound(s@, hi) && rv == range_union(iv, iv.len() as int, s@, hi);
                lemma_range_union_spans(da, iv, dv, iv.len() as int, s@, hi);
            }
        },
        Query::Or(qs) => {
            let subs = choose|subs: Seq<Seq<(u64, Seq<Position>)>>|
                #![auto]
                subs.len() == qs@.len() && (forall|k: int|
                    0 <= k < qs@.len() ==> query_matches(iv, qa, qs@[k], subs[k])) && rv
                    == union_views(subs);
            assert forall|k: int|
                0 <= k < subs.len() implies pm_wf(#[trigger] subs[k]) && map_spans_ok(
                subs[k],
                dv,
            ) by {
                assert(decreases_to!(q => q->Or_0));
                crate::query::lemma_query_matches_wf(iv, qa, qs@[k], subs[k]);
                lemma_query_spans(iv, dv, da, qa, qs@[k], subs[k]);
            }
            lemma_union_views_spans(subs, dv);
        },
        Query::And(qs) => {
            let subs = choose|subs: Seq<Seq<(u64, Seq<Position>)>>|
                #![auto]
                subs.len() == qs@.len() && (forall|k: int|
                    0 <= k < qs@.len() ==> query_matches(iv, qa, qs@[k], subs[k]))
                    && crate::query::and_rel(subs, rv);
            assert forall|k: int| 0 <= k < subs.len() implies map_spans_ok(#[trigger] subs[k], dv) by {
                assert(decreases_to!(q => q->And_0));
                lemma_query_spans(iv, dv, da, qa, qs@[k], subs[k]);
            }
            lemma_and_rel_spans(subs, rv, dv);
        },
        Query::Phrase(s) => {
            let ts = token_terms(qa, s@);
            let n = ts.len() as int;
            let pairs = choose|pairs: Seq<Seq<(u64, Seq<Position>)>>|
                #![auto]
                pairs.len() == (if n >= 1 {
                    n - 1
                } else {
                    0
                }) && (forall|k: int| 0 <= k < n - 1 ==> pairs[k] == pair_map(iv, ts[k], ts[k + 1]))
                    && crate::query::and_rel(pairs, rv);
            assert forall|k: int| 0 <= k < pairs.len() implies map_spans_ok(#[trigger] pairs[k], dv) by {
                assert(pairs[k] == pair_map(iv, ts[k], ts[k + 1]));
                lemma_pair_map_spans(da, iv, dv, ts[k], ts[k + 1]);
            }
            lemma_and_rel_spans(pairs, rv, dv);
        },
    }
}

/// A phrase pair's map keeps every list rendering.
proof fn lemma_pair_map_spans(
    a: Analyzer,
    iv: Seq<(Seq<char>, Seq<(u64, Seq<Position>)>)>,
    dv: Seq<(u64, Seq<char>)>,
    t0: Seq<char>,
    t1: Seq<char>,
)
    requires
        models(a, iv, dv),
        forall|id: u64|
            dm_has(dv, id) ==> crate::search_result::content_bytes(#[trigger] dm_get(dv, id))
                <= usize::MAX,
    ensures
        map_spans_ok(pair_map(iv, t0, t1), dv),
{
    let m = pair_map(iv, t0, t1);
    if tm_has(iv, t0) && tm_has(iv, t1) {
        crate::index::lemma_tm_find_props(iv, t0);
        crate::index::lemma_tm_find_props(iv, t1);
        crate::postings::lemma_pm_pos_inter_props(tm_get(iv, t0), tm_get(iv, t1));
        lemma_index_map_spans(a, iv, dv, t0);
        lemma_index_map_spans(a, iv, dv, t1);
        assert forall|id: u64| #[trigger] pm_has(m, id) implies spans_ok(
            pm_get(m, id),
            dm_get(dv, id),
        ) by {
            assert(pm_has(tm_get(iv, t0), id) && pm_has(tm_get(iv, t1), id));
            assert(spans_ok(Seq::<Position>::empty(), dm_get(dv, id)));
            lemma_positional_spans(
                pm_get(tm_get(iv, t0), id),
                pm_get(tm_get(iv, t1), id),
                0,
                0,
                Seq::<Position>::empty(),
                dm_get(dv, id),
            );
        }
    } else {
        assert forall|id: u64| #[trigger] pm_has(m, id) implies spans_ok(
            pm_get(m, id),
            dm_get(dv, id),
        ) by {
            crate::postings::lemma_pm_find_props(m, id);
        }
    }
}

/// A union of rendering maps keeps every list rendering.
proof fn lemma_union_views_spans(
    subs: Seq<Seq<(u64, Seq<Position>)>>,
    dv: Seq<(u64, Seq<char>)>,
)
    requires
        forall|k: int| 0 <= k < subs.len() ==> pm_wf(#[trigger] subs[k]),
        forall|k: int| 0 <= k < subs.len() ==> map_spans_ok(#[trigger] subs[k], dv),
    ensures
        map_spans_ok(union_views(subs), dv),
        pm_wf(union_views(subs)),
    decreases subs.len(),
{
    crate::query::lemma_union_views_props(subs);
    if subs.len() == 0 {
        assert forall|id: u64| #[trigger] pm_has(union_views(subs), id) implies spans_ok(
            pm_get(union_views(subs), id),
            dm_get(dv, id),
        ) by {
            crate::postings::lemma_pm_find_props(union_views(subs), id);
        }
    } else {
        assert forall|k: int|
            0 <= k < subs.drop_last().len() implies pm_wf(#[trigger] subs.drop_last()[k])
            && map_spans_ok(subs.drop_last()[k], dv) by {
            assert(subs.drop_last()[k] == subs[k]);
        }
        lemma_union_views_spans(subs.drop_last(), dv);
        assert(subs[subs.len() - 1] == subs.last());
        lemma_union_spans(union_views(subs.drop_last()), subs.last(), dv);
    }
}

/// An intersection result's lists are folds of its members' lists, so
/// every list keeps rendering.
proof fn lemma_and_rel_spans(
    subs: Seq<Seq<(u64, Seq<Position>)>>,
    rv: Seq<(u64, Seq<Position>)>,
    dv: Seq<(u64, Seq<char>)>,
)
    requires
        crate::query::and_rel(subs, rv),
        forall|k: int| 0 <= k < subs.len() ==> map_spans_ok(#[trigger] subs[k], dv),
    ensures
        map_spans_ok(rv, dv),
{
    assert forall|id: u64| #[trigger] pm_has(rv, id) implies spans_ok(
        pm_get(rv, id),
        dm_get(dv, id),
    ) by {
        if subs.len() == 0 {
            crate::postings::lemma_pm_find_props(rv, id);
        } else if subs.len() == 1 {
            assert(rv == subs[0]);
        } else {
            assert(forall|k: int| 0 <= k < subs.len() ==> pm_has(#[trigger] subs[k], id));
            lemma_and_list_spans(subs, id, subs.len() as int, dv);
        }
    }
}

/// Folding member lists together keeps every span rendering.
proof fn lemma_and_list_spans(
    subs: Seq<Seq<(u64, Seq<Position>)>>,
    id: u64,
    k: int,
    dv: Seq<(u64, Seq<char>)>,
)
    requires
        forall|w: int| 0 <= w < subs.len() ==> map_spans_ok(#[trigger] subs[w], dv),
        forall|w: int| 0 <= w < subs.len() ==> pm_has(#[trigger] subs[w], id),
        1 <= k <= subs.len(),
    ensures
        spans_ok(and_list(subs, id, k), dm_get(dv, id)),
    decreases k,
{
    if k <= 1 {
        assert(map_spans_ok(subs[0], dv));
    } else {
        lemma_and_list_spans(subs, id, k - 1, dv);
        assert(map_spans_ok(subs[k - 1], dv));
        lemma_merge_coalesce_spans(
            and_list(subs, id, k - 1),
            0,
            pm_get(subs[k - 1], id),
            dm_get(dv, id),
        );
    }
}

} // verus!
