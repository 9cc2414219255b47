//! The sort-and-coalesce law: streaming a sorted occurrence chain into an
//! empty vector, searching and coalescing each element in turn with the
//! threaded lower bound, builds the same list as a single linear
//! coalescing pass over the whole run.

use vstd::prelude::*;
use crate::coalesce::{Merge, spec_coalesce, spec_lower_from, spec_search_coalesce,
    lemma_lower_from_bounds};
use crate::index::build_plist;
use crate::postings::Position;
use crate::stream_laws::{occ_chain, occ_rel, wf_plist, lemma_build_plist_wf};

verus! {

/// A single linear coalescing pass over a sorted run: each element merges
/// into the result's last entry when it can, and is appended otherwise.
pub open spec fn lin_coalesce(s: Seq<Position>) -> Seq<Position>
    decreases s.len(),
{
    if s.len() == 0 {
        s
    } else {
        let r = lin_coalesce(s.drop_last());
        if r.len() > 0 && r.last().merge_spec(s.last()) is Some {
            r.update(r.len() - 1, r.last().merge_spec(s.last())->Some_0)
        } else {
            r.push(s.last())
        }
    }
}

/// On an occurrence chain, repeated searching-and-coalescing and the single
/// linear pass build the same list.
proof fn lemma_build_is_lin(ps: Seq<Position>)
    requires
        occ_chain(ps),
    ensures
        build_plist(ps) == lin_coalesce(ps),
    decreases ps.len(),
{
    if ps.len() > 0 {
        let front = ps.drop_last();
        let p = ps.last();
        assert(occ_chain(front)) by {
            assert forall|i: int, j: int|
                0 <= i < j < front.len() implies occ_rel(#[trigger] front[i], #[trigger] front[j]) by {
                assert(front[i] == ps[i] && front[j] == ps[j]);
            }
            assert forall|i: int|
                0 <= i < front.len() implies (#[trigger] front[i]).offsets.0 < front[i].offsets.1 by {
                assert(front[i] == ps[i]);
            }
        }
        lemma_build_is_lin(front);
        lemma_build_plist_wf(front);
        let l = build_plist(front);
        let l2 = build_plist(ps);
        lemma_lower_from_bounds(l, 0, p);
        let i = spec_lower_from(l, 0, p);
        if front.len() == 0 {
            assert(l.len() == 0);
            assert(l2 =~= seq![p]);
            assert(lin_coalesce(ps) =~= seq![p]);
        } else {
            let lastl = l.last();
            assert(lastl == front.last());
            assert(front.last() == ps[ps.len() - 2]);
            assert(occ_rel(ps[ps.len() - 2], p) || ps[ps.len() - 2] == p);
            if p.position == lastl.position {
                // same group: the pass and the search both extend the last
                // entry, or leave an equal occurrence in place
                assert(lastl.merge_spec(p) is Some);
                let m = lastl.merge_spec(p)->Some_0;
                assert(m == p) by {
                    assert(p.offsets.0 == lastl.offsets.0 && lastl.offsets.1 <= p.offsets.1);
                }
                assert(lin_coalesce(ps) == l.update(l.len() - 1, p));
                if p == lastl {
                    assert(l2 == l);
                    assert(l.update(l.len() - 1, p) =~= l);
                } else {
                    assert(l2 =~= l.update(l.len() - 1, p));
                }
            } else {
                // a new group: both append
                assert(lastl.position < p.position && lastl.offsets.1 < p.offsets.0);
                assert(lastl.merge_spec(p) is None);
                assert(lin_coalesce(ps) == l.push(p));
                assert(l2 =~= l.push(p));
            }
        }
    }
}

/// Along a list built from a chain, adjacent token positions strictly
/// increase.
proof fn lemma_build_positions(ps: Seq<Position>)
    requires
        occ_chain(ps),
    ensures
        forall|x: int|
            0 <= x < build_plist(ps).len() - 1 ==> (#[trigger] build_plist(ps)[x]).position
                < build_plist(ps)[x + 1].position,
{
    lemma_build_plist_wf(ps);
    let l = build_plist(ps);
    assert forall|x: int|
        0 <= x < l.len() - 1 implies (#[trigger] l[x]).position < l[x + 1].position by {
        let j1 = choose|j: int| 0 <= j < ps.len() && #[trigger] l[x] == ps[j];
        let j2 = choose|j: int| 0 <= j < ps.len() && #[trigger] l[x + 1] == ps[j];
        assert(l[x].le(l[x + 1]) && l[x] != l[x + 1]);
        assert(l[x].merge_spec(l[x + 1]) is None);
        assert(ps[j1].offsets.0 < ps[j1].offsets.1);
        assert(ps[j2].offsets.0 < ps[j2].offsets.1);
        if l[x].position == l[x + 1].position {
            // same token position means same begin in a chain, and then the
            // non-empty left span reaches the right span's begin
            assert(occ_rel(ps[j1], ps[j2]) || occ_rel(ps[j2], ps[j1]) || ps[j1] == ps[j2]);
            assert(l[x].offsets.0 == l[x + 1].offsets.0);
        } else if l[x].position > l[x + 1].position {
            assert(occ_rel(ps[j2], ps[j1]) || occ_rel(ps[j1], ps[j2]) || ps[j1] == ps[j2]);
            assert(l[x + 1].offsets.1 < l[x].offsets.0);
        }
    }
}

/// Searching-and-coalescing does not depend on the threaded start while
/// everything before it is at or below the element, provided the list is
/// well-formed with strictly increasing positions; the returned index keeps
/// that prefix property.
#[verifier::spinoff_prover]
proof fn lemma_sc_start_result(l: Seq<Position>, idx: int, p: Position)
    requires
        wf_plist(l),
        forall|x: int| 0 <= x < l.len() ==> (#[trigger] l[x]).offsets.0 < l[x].offsets.1,
        forall|x: int| 0 <= x < l.len() - 1 ==> (#[trigger] l[x]).position < l[x + 1].position,
        0 <= idx <= l.len(),
        forall|x: int| 0 <= x < idx ==> (#[trigger] l[x]).le(p),
    ensures
        spec_search_coalesce(l, idx, p).0 == spec_search_coalesce(l, 0, p).0,
        spec_search_coalesce(l, idx, p).1 <= spec_search_coalesce(l, idx, p).0.len(),
        forall|x: int|
            0 <= x < spec_search_coalesce(l, idx, p).1 ==> (#[trigger] spec_search_coalesce(
                l,
                idx,
                p,
            ).0[x]).le(p),
{
    lemma_lower_from_bounds(l, idx, p);
    lemma_lower_from_bounds(l, 0, p);
    let i1 = spec_lower_from(l, idx, p);
    let i0 = spec_lower_from(l, 0, p);
    if i0 == i1 {
        assert forall|x: int| 0 <= x < i1 implies (#[trigger] l[x]).le(p) by {
            if x >= idx {
                Position::lemma_merge_laws(l[x], p, p);
            }
        }
        if i1 < l.len() && l[i1] == p {
        } else {
            if 0 < i1 {
                assert(l[i1 - 1].can_merge(p)) by {
                    Position::lemma_merge_laws(l[i1 - 1], p, p);
                }
            }
            lemma_sc_prefix(l, i1, p);
        }
    } else {
        lemma_sc_duplicate(l, idx, p);
    }
}

/// When the two scans disagree, an equal copy of the element already sits
/// in the list, and both scans leave the list unchanged.
#[verifier::spinoff_prover]
#[verifier::rlimit(100)]
proof fn lemma_sc_duplicate(l: Seq<Position>, idx: int, p: Position)
    requires
        wf_plist(l),
        forall|x: int| 0 <= x < l.len() ==> (#[trigger] l[x]).offsets.0 < l[x].offsets.1,
        forall|x: int| 0 <= x < l.len() - 1 ==> (#[trigger] l[x]).position < l[x + 1].position,
        0 <= idx <= l.len(),
        forall|x: int| 0 <= x < idx ==> (#[trigger] l[x]).le(p),
        spec_lower_from(l, 0, p) != spec_lower_from(l, idx, p),
    ensures
        spec_search_coalesce(l, idx, p).0 == spec_search_coalesce(l, 0, p).0,
        spec_search_coalesce(l, idx, p).1 <= spec_search_coalesce(l, idx, p).0.len(),
        forall|x: int|
            0 <= x < spec_search_coalesce(l, idx, p).1 ==> (#[trigger] spec_search_coalesce(
                l,
                idx,
                p,
            ).0[x]).le(p),
{
    lemma_lower_from_bounds(l, idx, p);
    lemma_lower_from_bounds(l, 0, p);
    let i1 = spec_lower_from(l, idx, p);
    let i0 = spec_lower_from(l, 0, p);
    assert(i0 <= i1) by {
        if i0 > i1 {
            assert(idx <= i1);
            assert(!p.le(l[i1]) || i1 >= l.len());
        }
    }
    assert(i0 < i1);
    assert(i0 < l.len());
    assert(l[i0] == p) by {
        assert(l[i0].le(p)) by {
            if i0 >= idx {
                assert(!p.le(l[i0]));
            }
        }
        Position::lemma_merge_laws(l[i0], p, p);
    }
    assert(spec_search_coalesce(l, 0, p).0 == l);
    assert forall|x: int| i0 < x < l.len() implies !(#[trigger] l[x]).le(p) by {
        assert(l[i0].le(l[x]) && l[i0] != l[x]);
        if l[x].le(p) {
            Position::lemma_merge_laws(l[x], p, p);
        }
    }
    assert(idx <= i0 + 1) by {
        if idx > i0 + 1 {
            assert(l[i0 + 1].le(p));
        }
    }
    assert(i1 == i0 + 1) by {
        if i0 + 1 < l.len() {
            assert(p.le(l[i0 + 1])) by {
                Position::lemma_merge_laws(p, l[i0 + 1], p);
                Position::lemma_merge_laws(l[i0 + 1], p, p);
            }
            lemma_lower_unique_pos(l, idx, p, i0 + 1);
        } else {
            assert(i1 <= l.len());
        }
    }
    assert(l[i1 - 1] == p);
    assert(l[i1 - 1].merge_spec(p) == Some(p)) by {
        assert(l[i0].offsets.0 < l[i0].offsets.1);
        assert(p.offsets.0 < p.offsets.1);
    }
    let r1 = spec_search_coalesce(l, idx, p).0;
    if i1 < l.len() {
        assert(l[i1] != p);
        assert(r1 == spec_coalesce(l, i1, p));
        assert(p.merge_spec(l[i1]) is None) by {
            assert(l[i1 - 1].position < l[i1].position);
        }
        assert(r1 =~= l.update(i1 - 1, p));
        assert(r1 =~= l);
    } else {
        assert(r1 == spec_coalesce(l, i1, p));
        assert(r1 =~= l.update(i1 - 1, p));
        assert(r1 =~= l);
    }
    assert forall|x: int| 0 <= x < i1 implies (#[trigger] r1[x]).le(p) by {
        assert(r1[x] == l[x]);
        if x < i0 {
            assert(!p.le(l[x]));
            Position::lemma_merge_laws(l[x], p, p);
        }
    }
}

/// The late scan's unique stopping point.
proof fn lemma_lower_unique_pos(l: Seq<Position>, idx: int, p: Position, i: int)
    requires
        0 <= idx <= i <= l.len(),
        i < l.len() ==> p.le(l[i]),
        forall|x: int| idx <= x < i ==> !p.le(#[trigger] l[x]),
    ensures
        spec_lower_from(l, idx, p) == if i < l.len() {
            i
        } else {
            l.len() as int
        },
    decreases i - idx,
{
    if idx < i {
        lemma_lower_unique_pos(l, idx + 1, p, i);
    }
}

/// In the not-found case the coalesced result keeps its prefix at or below
/// the element.
proof fn lemma_sc_prefix(l: Seq<Position>, i: int, p: Position)
    requires
        wf_plist(l),
        forall|x: int| 0 <= x < l.len() ==> (#[trigger] l[x]).offsets.0 < l[x].offsets.1,
        forall|x: int| 0 <= x < l.len() - 1 ==> (#[trigger] l[x]).position < l[x + 1].position,
        0 <= i <= l.len(),
        i == spec_lower_from(l, 0, p),
        forall|x: int| 0 <= x < i ==> (#[trigger] l[x]).le(p),
        !(i < l.len() && l[i] == p),
    ensures
        spec_search_coalesce(l, 0, p).1 <= spec_search_coalesce(l, 0, p).0.len(),
        forall|x: int|
            0 <= x < spec_search_coalesce(l, 0, p).1 ==> (#[trigger] spec_search_coalesce(
                l,
                0,
                p,
            ).0[x]).le(p),
{
    lemma_lower_from_bounds(l, 0, p);
    let (r, ri) = spec_search_coalesce(l, 0, p);
    assert(ri == i);
    if 0 < i {
        assert(l[i - 1].can_merge(p)) by {
            Position::lemma_merge_laws(l[i - 1], p, p);
        }
    }
    assert(r == spec_coalesce(l, i, p));
    if l.len() == 0 {
    } else if i == 0 {
    } else if i == l.len() {
        match l[i - 1].merge_spec(p) {
            Some(m) => {
                assert(m.le(p)) by {
                    Position::lemma_merge_laws(l[i - 1], p, p);
                }
                assert forall|x: int| 0 <= x < ri implies (#[trigger] r[x]).le(p) by {
                    if x < i - 1 {
                        assert(r[x] == l[x]);
                    } else {
                        assert(r[x] == m);
                    }
                }
            },
            None => {
                assert forall|x: int| 0 <= x < ri implies (#[trigger] r[x]).le(p) by {
                    assert(r[x] == l[x]);
                }
            },
        }
    } else {
        match l[i - 1].merge_spec(p) {
            Some(m) => {
                // distinct token positions rule the second merge out
                assert(m.position == l[i - 1].position);
                assert(l[i - 1].position < l[i].position);
                assert(m.merge_spec(l[i]) is None);
                assert(m.le(p)) by {
                    Position::lemma_merge_laws(l[i - 1], p, p);
                }
                assert forall|x: int| 0 <= x < ri implies (#[trigger] r[x]).le(p) by {
                    if x < i - 1 {
                        assert(r[x] == l[x]);
                    } else {
                        assert(r[x] == m);
                    }
                }
            },
            None => {
                assert forall|x: int| 0 <= x < ri implies (#[trigger] r[x]).le(p) by {
                    match p.merge_spec(l[i]) {
                        Some(m2) => {
                            assert(r[x] == l[x]);
                        },
                        None => {
                            assert(r[x] == l[x]);
                        },
                    }
                }
            },
        }
    }
}

/// Streaming a sorted occurrence chain into an empty vector with threaded
/// searching-and-coalescing equals one sort-and-coalesce pass over the
/// whole run: the two agree element for element, so also as multisets of
/// final spans.
pub proof fn lemma_merge_coalesce_is_sort_and_coalesce(other: Seq<Position>)
    requires
        occ_chain(other),
    ensures
        crate::coalesce::spec_merge_coalesce(Seq::<Position>::empty(), 0, other).0 == lin_coalesce(
            other,
        ),
{
    lemma_build_is_lin(other);
    lemma_threaded_is_build(other, other.len() as int);
    assert(other.take(other.len() as int) =~= other);
}

/// The threaded fold over a chain prefix equals the unthreaded build.
proof fn lemma_threaded_is_build(other: Seq<Position>, k: int)
    requires
        occ_chain(other),
        0 <= k <= other.len(),
    ensures
        crate::coalesce::spec_merge_coalesce(Seq::<Position>::empty(), 0, other.take(k)).0
            == build_plist(other.take(k)),
        0 <= crate::coalesce::spec_merge_coalesce(Seq::<Position>::empty(), 0, other.take(k)).1
            <= crate::coalesce::spec_merge_coalesce(Seq::<Position>::empty(), 0, other.take(k)).0.len(),
        k < other.len() ==> forall|x: int|
            0 <= x < crate::coalesce::spec_merge_coalesce(Seq::<Position>::empty(), 0, other.take(k)).1
                ==> (#[trigger] crate::coalesce::spec_merge_coalesce(
                Seq::<Position>::empty(),
                0,
                other.take(k),
            ).0[x]).le(other[k]),
    decreases k,
{
    if k == 0 {
        assert(other.take(0) =~= Seq::<Position>::empty());
        crate::coalesce::lemma_merge_coalesce_empty_feed(Seq::<Position>::empty(), 0);
    } else {
        lemma_threaded_is_build(other, k - 1);
        lemma_threaded_step(other, k);
    }
}

/// One step of the threaded fold: the search from the threaded index lands
/// where the search from zero does, so the fold tracks the build.
#[verifier::spinoff_prover]
#[verifier::rlimit(100)]
proof fn lemma_threaded_step(other: Seq<Position>, k: int)
    requires
        occ_chain(other),
        1 <= k <= other.len(),
        crate::coalesce::spec_merge_coalesce(Seq::<Position>::empty(), 0, other.take(k - 1)).0
            == build_plist(other.take(k - 1)),
        0 <= crate::coalesce::spec_merge_coalesce(Seq::<Position>::empty(), 0, other.take(k - 1)).1
            <= crate::coalesce::spec_merge_coalesce(
            Seq::<Position>::empty(),
            0,
            other.take(k - 1),
        ).0.len(),
        forall|x: int|
            0 <= x < crate::coalesce::spec_merge_coalesce(
                Seq::<Position>::empty(),
                0,
                other.take(k - 1),
            ).1 ==> (#[trigger] crate::coalesce::spec_merge_coalesce(
                Seq::<Position>::empty(),
                0,
                other.take(k - 1),
            ).0[x]).le(other[k - 1]),
    ensures
        crate::coalesce::spec_merge_coalesce(Seq::<Position>::empty(), 0, other.take(k)).0
            == build_plist(other.take(k)),
        0 <= crate::coalesce::spec_merge_coalesce(Seq::<Position>::empty(), 0, other.take(k)).1
            <= crate::coalesce::spec_merge_coalesce(Seq::<Position>::empty(), 0, other.take(k)).0.len(),
        k < other.len() ==> forall|x: int|
            0 <= x < crate::coalesce::spec_merge_coalesce(Seq::<Position>::empty(), 0, other.take(k)).1
                ==> (#[trigger] crate::coalesce::spec_merge_coalesce(
                Seq::<Position>::empty(),
                0,
                other.take(k),
            ).0[x]).le(other[k]),
{
    let front = other.take(k - 1);
    let p = other[k - 1];
    assert(occ_chain(front)) by {
        lemma_chain_take(other, k - 1);
    }
    assert(other.take(k) =~= front.push(p));
    crate::coalesce::lemma_merge_coalesce_snoc(Seq::<Position>::empty(), 0, front, p);
    let (l, idx) = crate::coalesce::spec_merge_coalesce(Seq::<Position>::empty(), 0, front);
    assert(l == build_plist(front));
    lemma_build_plist_wf(front);
    lemma_build_positions(front);
    assert forall|x: int|
        0 <= x < l.len() implies (#[trigger] l[x]).offsets.0 < l[x].offsets.1 by {
        let j = choose|j: int| 0 <= j < front.len() && #[trigger] l[x] == front[j];
        assert(front[j].offsets.0 < front[j].offsets.1);
    }
    lemma_sc_start_result(l, idx, p);
    assert(build_plist(front.push(p)) == spec_search_coalesce(l, 0, p).0) by {
        assert(front.push(p).drop_last() =~= front);
        assert(front.push(p).last() == p);
    }
    let (l2, idx2) = spec_search_coalesce(l, idx, p);
    assert(crate::coalesce::spec_merge_coalesce(Seq::<Position>::empty(), 0, other.take(k))
        == spec_search_coalesce(l, idx, p));
    assert(0 <= idx2) by {
        lemma_lower_from_bounds(l, idx, p);
    }
    assert(idx2 <= l2.len());
    if k < other.len() {
        let p2 = other[k];
        assert(p.le(p2)) by {
            assert(occ_rel(other[k - 1], other[k]));
            assert(other[k - 1].offsets.0 < other[k - 1].offsets.1);
        }
        assert forall|x: int| 0 <= x < idx2 implies (#[trigger] l2[x]).le(p2) by {
            assert(l2[x].le(p));
            Position::lemma_merge_laws(l2[x], p, p2);
        }
    }
}

/// A chain's prefix is a chain.
proof fn lemma_chain_take(other: Seq<Position>, k: int)
    requires
        occ_chain(other),
        0 <= k <= other.len(),
    ensures
        occ_chain(other.take(k)),
{
    assert forall|i: int, j: int|
        0 <= i < j < other.take(k).len() implies occ_rel(
        #[trigger] other.take(k)[i],
        #[trigger] other.take(k)[j],
    ) by {
        assert(other.take(k)[i] == other[i] && other.take(k)[j] == other[j]);
    }
    assert forall|i: int|
        0 <= i < other.take(k).len() implies (#[trigger] other.take(k)[i]).offsets.0 < other.take(
        k,
    )[i].offsets.1 by {
        assert(other.take(k)[i] == other[i]);
    }
}

} // verus!
