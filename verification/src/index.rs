//! The inverted index: an ordered mapping from term to postings map, kept
//! consistent with an ordered document store.
//!
//! The well-formedness predicate `inv` pins the whole index down as a
//! function of the document store: a term is present exactly when some
//! stored document's analyzed stream produces it, and its postings list for
//! a document is the canonical coalesced list built from that document's
//! occurrences of the term.  `index` (insert or replace a document)
//! preserves this, which makes indexing an idempotent, commutative set
//! operation on distinct ids.

use vstd::prelude::*;
use crate::analysis::{Analyzer, pairs_view, stream};
use crate::chars::{lex_le, lex_lt, lemma_lex_le_antisym, lemma_lex_le_total, lemma_lex_le_trans,
    str_le};
use crate::coalesce::spec_search_coalesce;
use crate::document::Document;
use crate::postings::{PostingsMap, Position, pm_find, pm_get, pm_has, pm_wf, spec_pm_add,
    lemma_pm_find_props, lemma_pm_has, lemma_pm_remove_props, lemma_pm_add_props};

verus! {

/// One analyzed stream item: term, begin byte, end byte, token position.
pub open spec fn item_pos(it: (Seq<char>, int, int, int)) -> Position {
    Position { offsets: (it.1 as usize, it.2 as usize), position: it.3 as usize }
}

/// The positions at which term `t` occurs in an analyzed stream, in stream
/// order.
pub open spec fn occs(items: Seq<(Seq<char>, int, int, int)>, t: Seq<char>) -> Seq<Position>
    decreases items.len(),
{
    if items.len() == 0 {
        Seq::<Position>::empty()
    } else {
        (if items[0].0 == t {
            seq![item_pos(items[0])]
        } else {
            Seq::<Position>::empty()
        }) + occs(items.drop_first(), t)
    }
}

/// Whether term `t` occurs anywhere in an analyzed stream.
pub open spec fn has_occ(items: Seq<(Seq<char>, int, int, int)>, t: Seq<char>) -> bool {
    occs(items, t).len() > 0
}

pub proof fn lemma_occs_take_step(items: Seq<(Seq<char>, int, int, int)>, t: Seq<char>, k: int)
    requires
        0 <= k < items.len(),
    ensures
        occs(items.take(k + 1), t) == occs(items.take(k), t) + (if items[k].0 == t {
            seq![item_pos(items[k])]
        } else {
            Seq::<Position>::empty()
        }),
    decreases k,
{
    if k == 0 {
        assert(items.take(0) =~= Seq::<(Seq<char>, int, int, int)>::empty());
        assert(items.take(1) =~= seq![items[0]]);
        assert(items.take(1).drop_first() =~= Seq::<(Seq<char>, int, int, int)>::empty());
        assert(occs(items.take(1), t) =~= occs(items.take(0), t) + (if items[0].0 == t {
            seq![item_pos(items[0])]
        } else {
            Seq::<Position>::empty()
        }));
    } else {
        lemma_occs_take_step(items.drop_first(), t, k - 1);
        assert(items.take(k + 1)[0] == items[0]);
        assert(items.take(k)[0] == items[0]);
        assert(items.take(k + 1).drop_first() =~= items.drop_first().take(k));
        assert(items.take(k).drop_first() =~= items.drop_first().take(k - 1));
        assert(items.drop_first()[k - 1] == items[k]);
        assert(occs(items.take(k + 1), t) =~= occs(items.take(k), t) + (if items[k].0 == t {
            seq![item_pos(items[k])]
        } else {
            Seq::<Position>::empty()
        }));
    }
}

/// The canonical postings list built from a run of positions: each in turn
/// searched-and-coalesced into the list, always from index 0.
pub open spec fn build_plist(ps: Seq<Position>) -> Seq<Position>
    decreases ps.len(),
{
    if ps.len() == 0 {
        Seq::<Position>::empty()
    } else {
        spec_search_coalesce(build_plist(ps.drop_last()), 0, ps.last()).0
    }
}

/// Whether the analyzer produces term `t` for content `c`.
pub open spec fn has_term(a: Analyzer, c: Seq<char>, t: Seq<char>) -> bool {
    has_occ(stream(a, c), t)
}

/// The canonical postings list of term `t` for content `c`: a pure function
/// of the two, which is what makes re-indexing idempotent.
pub open spec fn plist(a: Analyzer, c: Seq<char>, t: Seq<char>) -> Seq<Position> {
    build_plist(occs(stream(a, c), t))
}

// ---- term map view helpers ----

/// First index of the term map view holding term `t`; the length when none.
pub open spec fn tm_find(v: Seq<(Seq<char>, Seq<(u64, Seq<Position>)>)>, t: Seq<char>) -> int
    decreases v.len(),
{
    if v.len() == 0 {
        0
    } else if v[0].0 == t {
        0
    } else {
        1 + tm_find(v.drop_first(), t)
    }
}

pub open spec fn tm_has(v: Seq<(Seq<char>, Seq<(u64, Seq<Position>)>)>, t: Seq<char>) -> bool {
    tm_find(v, t) < v.len()
}

/// The postings map view recorded for term `t`.
pub open spec fn tm_get(v: Seq<(Seq<char>, Seq<(u64, Seq<Position>)>)>, t: Seq<char>) -> Seq<
    (u64, Seq<Position>),
> {
    v[tm_find(v, t)].1
}

/// Well-formed term map view: terms strictly increasing in code-point order.
pub open spec fn tm_wf(v: Seq<(Seq<char>, Seq<(u64, Seq<Position>)>)>) -> bool {
    forall|i: int, j: int|
        0 <= i < j < v.len() ==> lex_lt((#[trigger] v[i]).0, (#[trigger] v[j]).0)
}

pub proof fn lemma_tm_find_props(v: Seq<(Seq<char>, Seq<(u64, Seq<Position>)>)>, t: Seq<char>)
    ensures
        0 <= tm_find(v, t) <= v.len(),
        tm_find(v, t) < v.len() ==> v[tm_find(v, t)].0 == t,
        forall|j: int| 0 <= j < tm_find(v, t) ==> (#[trigger] v[j]).0 != t,
    decreases v.len(),
{
    if v.len() > 0 && v[0].0 != t {
        lemma_tm_find_props(v.drop_first(), t);
        assert forall|j: int| 0 <= j < tm_find(v, t) implies (#[trigger] v[j]).0 != t by {
            if j > 0 {
                assert(v.drop_first()[j - 1].0 != t);
            }
        }
    }
}

pub proof fn lemma_tm_has(v: Seq<(Seq<char>, Seq<(u64, Seq<Position>)>)>, t: Seq<char>)
    ensures
        tm_has(v, t) <==> exists|i: int| 0 <= i < v.len() && (#[trigger] v[i]).0 == t,
{
    lemma_tm_find_props(v, t);
    if tm_has(v, t) {
        assert(v[tm_find(v, t)].0 == t);
    }
}

pub proof fn lemma_tm_find_unique(
    v: Seq<(Seq<char>, Seq<(u64, Seq<Position>)>)>,
    t: Seq<char>,
    i: int,
)
    requires
        0 <= i < v.len(),
        v[i].0 == t,
        forall|j: int| 0 <= j < i ==> (#[trigger] v[j]).0 != t,
    ensures
        tm_find(v, t) == i,
    decreases v.len(),
{
    if v[0].0 != t {
        assert(v.drop_first()[i - 1].0 == t);
        assert forall|j: int| 0 <= j < i - 1 implies (#[trigger] v.drop_first()[j]).0 != t by {
            assert(v[j + 1].0 != t);
        }
        lemma_tm_find_unique(v.drop_first(), t, i - 1);
    }
}

// ---- document store view helpers ----

/// First index of the document store view holding `id`; the length when
/// none.
pub open spec fn dm_find(v: Seq<(u64, Seq<char>)>, id: u64) -> int
    decreases v.len(),
{
    if v.len() == 0 {
        0
    } else if v[0].0 == id {
        0
    } else {
        1 + dm_find(v.drop_first(), id)
    }
}

pub open spec fn dm_has(v: Seq<(u64, Seq<char>)>, id: u64) -> bool {
    dm_find(v, id) < v.len()
}

/// The stored content of document `id`.
pub open spec fn dm_get(v: Seq<(u64, Seq<char>)>, id: u64) -> Seq<char> {
    v[dm_find(v, id)].1
}

/// Well-formed document store view: ids strictly increasing.
pub open spec fn dm_wf(v: Seq<(u64, Seq<char>)>) -> bool {
    forall|i: int, j: int| 0 <= i < j < v.len() ==> (#[trigger] v[i]).0 < (#[trigger] v[j]).0
}

pub proof fn lemma_dm_find_props(v: Seq<(u64, Seq<char>)>, id: u64)
    ensures
        0 <= dm_find(v, id) <= v.len(),
        dm_find(v, id) < v.len() ==> v[dm_find(v, id)].0 == id,
        forall|j: int| 0 <= j < dm_find(v, id) ==> (#[trigger] v[j]).0 != id,
    decreases v.len(),
{
    if v.len() > 0 && v[0].0 != id {
        lemma_dm_find_props(v.drop_first(), id);
        assert forall|j: int| 0 <= j < dm_find(v, id) implies (#[trigger] v[j]).0 != id by {
            if j > 0 {
                assert(v.drop_first()[j - 1].0 != id);
            }
        }
    }
}

pub proof fn lemma_dm_has(v: Seq<(u64, Seq<char>)>, id: u64)
    ensures
        dm_has(v, id) <==> exists|i: int| 0 <= i < v.len() && (#[trigger] v[i]).0 == id,
{
    lemma_dm_find_props(v, id);
    if dm_has(v, id) {
        assert(v[dm_find(v, id)].0 == id);
    }
}

pub proof fn lemma_dm_find_unique(v: Seq<(u64, Seq<char>)>, id: u64, i: int)
    requires
        0 <= i < v.len(),
        v[i].0 == id,
        forall|j: int| 0 <= j < i ==> (#[trigger] v[j]).0 != id,
    ensures
        dm_find(v, id) == i,
    decreases v.len(),
{
    if v[0].0 != id {
        assert(v.drop_first()[i - 1].0 == id);
        assert forall|j: int| 0 <= j < i - 1 implies (#[trigger] v.drop_first()[j]).0 != id by {
            assert(v[j + 1].0 != id);
        }
        lemma_dm_find_unique(v.drop_first(), id, i - 1);
    }
}

/// The abstract value of stored term entries.
pub open spec fn tm_view_of(entries: Seq<(String, PostingsMap)>) -> Seq<
    (Seq<char>, Seq<(u64, Seq<Position>)>),
> {
    Seq::new(entries.len(), |i: int| (entries[i].0@, entries[i].1@))
}

/// The abstract value of stored documents.
pub open spec fn dm_view_of(entries: Seq<(u64, Document)>) -> Seq<(u64, Seq<char>)> {
    Seq::new(entries.len(), |i: int| (entries[i].0, entries[i].1.content@))
}

pub proof fn lemma_tm_view_remove(entries: Seq<(String, PostingsMap)>, i: int)
    requires
        0 <= i < entries.len(),
    ensures
        tm_view_of(entries.remove(i)) =~= tm_view_of(entries).remove(i),
{
    assert forall|k: int| 0 <= k < entries.len() - 1 implies #[trigger] tm_view_of(
        entries.remove(i),
    )[k] == tm_view_of(entries).remove(i)[k] by {
        if k < i {
            assert(entries.remove(i)[k] == entries[k]);
        } else {
            assert(entries.remove(i)[k] == entries[k + 1]);
        }
    }
}

pub proof fn lemma_tm_view_insert(entries: Seq<(String, PostingsMap)>, i: int, e: (String, PostingsMap))
    requires
        0 <= i <= entries.len(),
    ensures
        tm_view_of(entries.insert(i, e)) =~= tm_view_of(entries).insert(i, (e.0@, e.1@)),
{
    assert forall|k: int| 0 <= k < entries.len() + 1 implies #[trigger] tm_view_of(
        entries.insert(i, e),
    )[k] == tm_view_of(entries).insert(i, (e.0@, e.1@))[k] by {
        if k < i {
            assert(entries.insert(i, e)[k] == entries[k]);
        } else if k == i {
            assert(entries.insert(i, e)[k] == e);
        } else {
            assert(entries.insert(i, e)[k] == entries[k - 1]);
        }
    }
}

pub proof fn lemma_dm_view_remove(entries: Seq<(u64, Document)>, i: int)
    requires
        0 <= i < entries.len(),
    ensures
        dm_view_of(entries.remove(i)) =~= dm_view_of(entries).remove(i),
{
    assert forall|k: int| 0 <= k < entries.len() - 1 implies #[trigger] dm_view_of(
        entries.remove(i),
    )[k] == dm_view_of(entries).remove(i)[k] by {
        if k < i {
            assert(entries.remove(i)[k] == entries[k]);
        } else {
            assert(entries.remove(i)[k] == entries[k + 1]);
        }
    }
}

pub proof fn lemma_dm_view_insert(entries: Seq<(u64, Document)>, i: int, e: (u64, Document))
    requires
        0 <= i <= entries.len(),
    ensures
        dm_view_of(entries.insert(i, e)) =~= dm_view_of(entries).insert(i, (e.0, e.1.content@)),
{
    assert forall|k: int| 0 <= k < entries.len() + 1 implies #[trigger] dm_view_of(
        entries.insert(i, e),
    )[k] == dm_view_of(entries).insert(i, (e.0, e.1.content@))[k] by {
        if k < i {
            assert(entries.insert(i, e)[k] == entries[k]);
        } else if k == i {
            assert(entries.insert(i, e)[k] == e);
        } else {
            assert(entries.insert(i, e)[k] == entries[k - 1]);
        }
    }
}

/// In a well-formed term map a term appears at exactly one index.
pub proof fn lemma_tm_at_find(v: Seq<(Seq<char>, Seq<(u64, Seq<Position>)>)>, k: int)
    requires
        tm_wf(v),
        0 <= k < v.len(),
    ensures
        tm_find(v, v[k].0) == k,
{
    lemma_tm_find_props(v, v[k].0);
    let f = tm_find(v, v[k].0);
    if f < k {
        assert(lex_lt(v[f].0, v[k].0));
    }
    if f > k {
        assert(v[k].0 != v[k].0) by {
            assert(forall|j: int| 0 <= j < f ==> (#[trigger] v[j]).0 != v[k].0);
        }
    }
}

/// Removing the entry of term `t` drops exactly that term.
pub proof fn lemma_tm_remove_props(v: Seq<(Seq<char>, Seq<(u64, Seq<Position>)>)>, t: Seq<char>)
    requires
        tm_wf(v),
        tm_has(v, t),
    ensures
        tm_wf(v.remove(tm_find(v, t))),
        forall|q: Seq<char>|
            tm_has(#[trigger] v.remove(tm_find(v, t)), q) <==> (tm_has(v, q) && q != t),
        forall|q: Seq<char>|
            tm_has(#[trigger] v.remove(tm_find(v, t)), q) ==> tm_get(v.remove(tm_find(v, t)), q)
                == tm_get(v, q),
{
    let f = tm_find(v, t);
    lemma_tm_find_props(v, t);
    let v2 = v.remove(f);
    assert forall|i: int, j: int| 0 <= i < j < v2.len() implies lex_lt(
        (#[trigger] v2[i]).0,
        (#[trigger] v2[j]).0,
    ) by {
        let i2: int = if i < f {
            i
        } else {
            i + 1
        };
        let j2: int = if j < f {
            j
        } else {
            j + 1
        };
        assert(v2[i] == v[i2] && v2[j] == v[j2]);
    }
    assert forall|q: Seq<char>| true implies ((tm_has(v2, q) <==> (tm_has(v, q) && q != t)) && (
    tm_has(v2, q) ==> tm_get(v2, q) == tm_get(v, q))) by {
        lemma_tm_has(v, q);
        lemma_tm_has(v2, q);
        if tm_has(v2, q) {
            let k2 = tm_find(v2, q);
            lemma_tm_find_props(v2, q);
            let k: int = if k2 < f {
                k2
            } else {
                k2 + 1
            };
            assert(v2[k2] == v[k]);
            lemma_tm_at_find(v, k);
            assert(q != t) by {
                if q == t {
                    lemma_tm_at_find(v, f);
                    assert(k == f);
                }
            }
            assert(tm_get(v2, q) == v2[k2].1);
            assert(tm_get(v, q) == v[k].1);
        }
        if tm_has(v, q) && q != t {
            let k = tm_find(v, q);
            lemma_tm_find_props(v, q);
            assert(v[k].0 == q);
            assert(k != f);
            let k2: int = if k < f {
                k
            } else {
                k - 1
            };
            assert(v2[k2] == v[k]);
            assert(v2[k2].0 == q);
            assert(tm_has(v2, q));
        }
    }
}

/// Replacing the postings of term `t` rewrites exactly that entry.
pub proof fn lemma_tm_update_props(
    v: Seq<(Seq<char>, Seq<(u64, Seq<Position>)>)>,
    t: Seq<char>,
    l2: Seq<(u64, Seq<Position>)>,
)
    requires
        tm_wf(v),
        tm_has(v, t),
    ensures
        tm_wf(v.update(tm_find(v, t), (t, l2))),
        forall|q: Seq<char>| tm_has(#[trigger] v.update(tm_find(v, t), (t, l2)), q) <==> tm_has(v, q),
        tm_get(v.update(tm_find(v, t), (t, l2)), t) == l2,
        forall|q: Seq<char>|
            q != t && tm_has(v, q) ==> tm_get(#[trigger] v.update(tm_find(v, t), (t, l2)), q)
                == tm_get(v, q),
{
    let f = tm_find(v, t);
    lemma_tm_find_props(v, t);
    let v2 = v.update(f, (t, l2));
    assert forall|i: int, j: int| 0 <= i < j < v2.len() implies lex_lt(
        (#[trigger] v2[i]).0,
        (#[trigger] v2[j]).0,
    ) by {
        assert(v2[i].0 == v[i].0 && v2[j].0 == v[j].0);
    }
    assert forall|q: Seq<char>| true implies ((tm_has(v2, q) <==> tm_has(v, q)) && (q != t
        && tm_has(v, q) ==> tm_get(v2, q) == tm_get(v, q))) by {
        lemma_tm_has(v, q);
        lemma_tm_has(v2, q);
        if tm_has(v, q) {
            let k = tm_find(v, q);
            lemma_tm_find_props(v, q);
            assert(v2[k].0 == q);
            lemma_tm_at_find(v2, k);
            if q != t {
                assert(k != f);
                assert(v2[k] == v[k]);
                lemma_tm_at_find(v, k);
            }
        }
        if tm_has(v2, q) {
            let k = tm_find(v2, q);
            lemma_tm_find_props(v2, q);
            assert(v[k].0 == q);
        }
    }
    assert(v2[f].0 == t);
    lemma_tm_at_find(v2, f);
}

/// First index whose term is at or above `t` in code-point order.
pub open spec fn tm_lower(v: Seq<(Seq<char>, Seq<(u64, Seq<Position>)>)>, t: Seq<char>) -> int
    decreases v.len(),
{
    if v.len() == 0 {
        0
    } else if lex_le(t, v[0].0) {
        0
    } else {
        1 + tm_lower(v.drop_first(), t)
    }
}

pub proof fn lemma_tm_lower_props(v: Seq<(Seq<char>, Seq<(u64, Seq<Position>)>)>, t: Seq<char>)
    ensures
        0 <= tm_lower(v, t) <= v.len(),
        tm_lower(v, t) < v.len() ==> lex_le(t, v[tm_lower(v, t)].0),
        forall|j: int| 0 <= j < tm_lower(v, t) ==> !lex_le(t, (#[trigger] v[j]).0),
    decreases v.len(),
{
    if v.len() > 0 && !lex_le(t, v[0].0) {
        lemma_tm_lower_props(v.drop_first(), t);
        assert forall|j: int| 0 <= j < tm_lower(v, t) implies !lex_le(t, (#[trigger] v[j]).0) by {
            if j > 0 {
                assert(!lex_le(t, v.drop_first()[j - 1].0));
            }
        }
    }
}

pub proof fn lemma_tm_lower_unique(
    v: Seq<(Seq<char>, Seq<(u64, Seq<Position>)>)>,
    t: Seq<char>,
    i: int,
)
    requires
        0 <= i <= v.len(),
        i < v.len() ==> lex_le(t, v[i].0),
        forall|j: int| 0 <= j < i ==> !lex_le(t, (#[trigger] v[j]).0),
    ensures
        tm_lower(v, t) == i,
    decreases v.len(),
{
    if v.len() > 0 && !lex_le(t, v[0].0) {
        assert forall|j: int| 0 <= j < i - 1 implies !lex_le(t, (#[trigger] v.drop_first()[j]).0) by {
            assert(!lex_le(t, v[j + 1].0));
        }
        assert(i > 0);
        lemma_tm_lower_unique(v.drop_first(), t, i - 1);
    }
}

/// Inserting a new term at its sorted place adds exactly that term.
pub proof fn lemma_tm_insert_props(
    v: Seq<(Seq<char>, Seq<(u64, Seq<Position>)>)>,
    t: Seq<char>,
    pmv: Seq<(u64, Seq<Position>)>,
)
    requires
        tm_wf(v),
        !tm_has(v, t),
    ensures
        tm_wf(v.insert(tm_lower(v, t), (t, pmv))),
        forall|q: Seq<char>|
            tm_has(#[trigger] v.insert(tm_lower(v, t), (t, pmv)), q) <==> (tm_has(v, q) || q == t),
        tm_get(v.insert(tm_lower(v, t), (t, pmv)), t) == pmv,
        forall|q: Seq<char>|
            q != t && tm_has(v, q) ==> tm_get(#[trigger] v.insert(tm_lower(v, t), (t, pmv)), q)
                == tm_get(v, q),
{
    let at = tm_lower(v, t);
    lemma_tm_lower_props(v, t);
    lemma_tm_has(v, t);
    let v2 = v.insert(at, (t, pmv));
    assert forall|j: int| 0 <= j < at implies lex_lt((#[trigger] v[j]).0, t) by {
        lemma_lex_le_total(t, v[j].0);
        assert(lex_le(v[j].0, t));
        assert(v[j].0 != t);
    }
    assert forall|j: int| at <= j < v.len() implies lex_lt(t, (#[trigger] v[j]).0) by {
        assert(lex_le(t, v[at].0));
        assert(v[at].0 != t);
        if j > at {
            assert(lex_lt(v[at].0, v[j].0));
            lemma_lex_le_trans(t, v[at].0, v[j].0);
            assert(v[j].0 != t) by {
                if v[j].0 == t {
                    lemma_lex_le_antisym(t, v[at].0);
                }
            }
        }
    }
    assert forall|i: int, j: int| 0 <= i < j < v2.len() implies lex_lt(
        (#[trigger] v2[i]).0,
        (#[trigger] v2[j]).0,
    ) by {
        let i2: int = if i < at {
            i
        } else {
            i - 1
        };
        let j2: int = if j < at {
            j
        } else {
            j - 1
        };
        if i != at {
            assert(v2[i] == v[i2]);
        } else {
            assert(v2[i] == (t, pmv));
        }
        if j != at {
            assert(v2[j] == v[j2]);
        } else {
            assert(v2[j] == (t, pmv));
        }
    }
    assert forall|q: Seq<char>| true implies ((tm_has(v2, q) <==> (tm_has(v, q) || q == t)) && (q
        != t && tm_has(v, q) ==> tm_get(v2, q) == tm_get(v, q))) by {
        lemma_tm_has(v, q);
        lemma_tm_has(v2, q);
        if q == t {
            assert(v2[at] == (t, pmv));
            assert(v2[at].0 == q);
            assert(tm_has(v2, q));
        }
        if tm_has(v, q) {
            let k = tm_find(v, q);
            lemma_tm_find_props(v, q);
            assert(v[k].0 == q);
            let k2: int = if k < at {
                k
            } else {
                k + 1
            };
            assert(v2[k2] == v[k]);
            assert(v2[k2].0 == q);
            lemma_tm_at_find(v2, k2);
            if q != t {
                lemma_tm_at_find(v, k);
                assert(tm_get(v2, q) == v2[k2].1);
                assert(tm_get(v, q) == v[k].1);
            }
        }
        if tm_has(v2, q) && q != t {
            let k2 = tm_find(v2, q);
            lemma_tm_find_props(v2, q);
            assert(v2[k2].0 == q);
            assert(v2[at] == (t, pmv));
            assert(k2 != at);
            let k: int = if k2 < at {
                k2
            } else {
                k2 - 1
            };
            assert(v2[k2] == v[k]);
            assert(v[k].0 == q);
        }
    }
    assert(v2[at] == (t, pmv));
    lemma_tm_at_find(v2, at);
}

/// Whether some stored document other than `xid` produces term `t`.
pub open spec fn other_doc_has(
    a: Analyzer,
    dv: Seq<(u64, Seq<char>)>,
    xid: u64,
    t: Seq<char>,
) -> bool {
    exists|id2: u64| #![auto] id2 != xid && dm_has(dv, id2) && has_term(a, dm_get(dv, id2), t)
}

/// The index view is the canonical index of the document store view: terms
/// present exactly when some document produces them, postings recorded
/// exactly for the producing documents, and every list the canonical one.
pub open spec fn models(
    a: Analyzer,
    iv: Seq<(Seq<char>, Seq<(u64, Seq<Position>)>)>,
    dv: Seq<(u64, Seq<char>)>,
) -> bool {
    &&& tm_wf(iv)
    &&& forall|k: int| 0 <= k < iv.len() ==> pm_wf((#[trigger] iv[k]).1)
    &&& forall|t: Seq<char>|
        #![trigger tm_has(iv, t)]
        tm_has(iv, t) <==> exists|id2: u64| #![auto] dm_has(dv, id2) && has_term(
            a,
            dm_get(dv, id2),
            t,
        )
    &&& forall|t: Seq<char>, id: u64|
        tm_has(iv, t) ==> (#[trigger] pm_has(tm_get(iv, t), id) <==> (dm_has(dv, id) && has_term(
            a,
            dm_get(dv, id),
            t,
        )))
    &&& forall|t: Seq<char>, id: u64|
        tm_has(iv, t) && #[trigger] pm_has(tm_get(iv, t), id) ==> pm_get(tm_get(iv, t), id)
            == plist(a, dm_get(dv, id), t)
    &&& forall|t: Seq<char>| tm_has(iv, t) ==> (#[trigger] tm_get(iv, t)).len() > 0
}

/// The canonical index of the document store view with the contributions of
/// document `xid` taken from the map `extra` instead: the mid-states that
/// re-indexing a document walks through.
pub open spec fn models_with(
    a: Analyzer,
    iv: Seq<(Seq<char>, Seq<(u64, Seq<Position>)>)>,
    dv: Seq<(u64, Seq<char>)>,
    xid: u64,
    extra: Map<Seq<char>, Seq<Position>>,
) -> bool {
    &&& tm_wf(iv)
    &&& forall|k: int| 0 <= k < iv.len() ==> pm_wf((#[trigger] iv[k]).1)
    &&& forall|t: Seq<char>|
        #![trigger tm_has(iv, t)]
        tm_has(iv, t) <==> (other_doc_has(a, dv, xid, t) || extra.dom().contains(t))
    &&& forall|t: Seq<char>, id: u64|
        tm_has(iv, t) ==> (#[trigger] pm_has(tm_get(iv, t), id) <==> if id == xid {
            extra.dom().contains(t)
        } else {
            dm_has(dv, id) && has_term(a, dm_get(dv, id), t)
        })
    &&& forall|t: Seq<char>, id: u64|
        tm_has(iv, t) && #[trigger] pm_has(tm_get(iv, t), id) ==> pm_get(tm_get(iv, t), id) == (
        if id == xid {
            extra[t]
        } else {
            plist(a, dm_get(dv, id), t)
        })
    &&& forall|t: Seq<char>| tm_has(iv, t) ==> (#[trigger] tm_get(iv, t)).len() > 0
}

/// The contributions of a document with content `c`: every term it
/// produces, mapped to its canonical postings list.
pub open spec fn contributions(a: Analyzer, c: Seq<char>) -> Map<Seq<char>, Seq<Position>> {
    Map::new(|t: Seq<char>| has_term(a, c, t), |t: Seq<char>| plist(a, c, t))
}

/// The term map after removing document `xid` under term `t`: nothing when
/// the term is absent; otherwise the document leaves the term\'s postings
/// map, and a term whose postings map empties leaves the index.
pub open spec fn spec_remove_doc_term(
    iv: Seq<(Seq<char>, Seq<(u64, Seq<Position>)>)>,
    t: Seq<char>,
    xid: u64,
) -> Seq<(Seq<char>, Seq<(u64, Seq<Position>)>)> {
    if !tm_has(iv, t) {
        iv
    } else {
        let f = tm_find(iv, t);
        let pmv = iv[f].1;
        let pmv2 = if pm_has(pmv, xid) {
            pmv.remove(pm_find(pmv, xid))
        } else {
            pmv
        };
        if pmv2.len() == 0 {
            iv.remove(f)
        } else {
            iv.update(f, (t, pmv2))
        }
    }
}

/// Removing one term of document `xid` moves a canonical mid-state one step
/// on: the document\'s recorded contribution for that term is gone.
pub proof fn lemma_models_remove_term(
    a: Analyzer,
    iv: Seq<(Seq<char>, Seq<(u64, Seq<Position>)>)>,
    dv: Seq<(u64, Seq<char>)>,
    xid: u64,
    extra: Map<Seq<char>, Seq<Position>>,
    t: Seq<char>,
)
    requires
        models_with(a, iv, dv, xid, extra),
    ensures
        models_with(a, spec_remove_doc_term(iv, t, xid), dv, xid, extra.remove(t)),
{
    let iv2 = spec_remove_doc_term(iv, t, xid);
    let extra2 = extra.remove(t);
    if !tm_has(iv, t) {
        assert(!extra.dom().contains(t));
        assert(extra2 =~= extra);
    } else {
        lemma_tm_find_props(iv, t);
        let f = tm_find(iv, t);
        let pmv = iv[f].1;
        assert(tm_get(iv, t) == pmv);
        assert(pm_wf(pmv));
        if pm_has(pmv, xid) {
            assert(extra.dom().contains(t));
            let pmv2 = pmv.remove(pm_find(pmv, xid));
            lemma_pm_remove_props(pmv, xid);
            if pmv2.len() == 0 {
                // the only entry was this document's
                lemma_tm_remove_props(iv, t);
                assert(iv2 == iv.remove(f));
                assert forall|k: int| 0 <= k < iv2.len() implies pm_wf((#[trigger] iv2[k]).1) by {
                    if k < f {
                        assert(iv2[k] == iv[k]);
                    } else {
                        assert(iv2[k] == iv[k + 1]);
                    }
                }
                assert forall|q: Seq<char>| tm_has(iv2, q) implies (#[trigger] tm_get(
                    iv2,
                    q,
                )).len() > 0 by {
                    assert(tm_has(iv, q));
                    assert(tm_get(iv2, q) == tm_get(iv, q));
                    assert(tm_get(iv, q).len() > 0);
                }
                assert(!other_doc_has(a, dv, xid, t)) by {
                    if other_doc_has(a, dv, xid, t) {
                        let id2 = choose|id2: u64|
                            #![auto]
                            id2 != xid && dm_has(dv, id2) && has_term(a, dm_get(dv, id2), t);
                        assert(pm_has(pmv, id2));
                        assert(pm_has(pmv2, id2));
                        lemma_pm_has(pmv2, id2);
                    }
                }
                assert forall|q: Seq<char>|
                    #![trigger tm_has(iv2, q)]
                    tm_has(iv2, q) <==> (other_doc_has(a, dv, xid, q) || extra2.dom().contains(
                        q,
                    )) by {
                    if q != t {
                        assert(tm_has(iv2, q) == tm_has(iv, q));
                    }
                }
                assert forall|q: Seq<char>, id: u64|
                    tm_has(iv2, q) implies (#[trigger] pm_has(tm_get(iv2, q), id) <==> if id == xid {
                    extra2.dom().contains(q)
                } else {
                    dm_has(dv, id) && has_term(a, dm_get(dv, id), q)
                }) by {
                    assert(q != t);
                    assert(tm_has(iv, q));
                    assert(tm_get(iv2, q) == tm_get(iv, q));
                    assert(pm_has(tm_get(iv2, q), id) == pm_has(tm_get(iv, q), id));
                }
                assert forall|q: Seq<char>, id: u64|
                    tm_has(iv2, q) && #[trigger] pm_has(tm_get(iv2, q), id) implies pm_get(
                    tm_get(iv2, q),
                    id,
                ) == (if id == xid {
                    extra2[q]
                } else {
                    plist(a, dm_get(dv, id), q)
                }) by {
                    assert(q != t);
                    assert(tm_has(iv, q));
                    assert(tm_get(iv2, q) == tm_get(iv, q));
                    assert(pm_has(tm_get(iv, q), id));
                    assert(pm_get(tm_get(iv, q), id) == (if id == xid {
                        extra[q]
                    } else {
                        plist(a, dm_get(dv, id), q)
                    }));
                }
            } else {
                lemma_tm_update_props(iv, t, pmv2);
                assert(iv2 == iv.update(f, (t, pmv2)));
                assert forall|k: int| 0 <= k < iv2.len() implies pm_wf((#[trigger] iv2[k]).1) by {
                    if k != f {
                        assert(iv2[k] == iv[k]);
                    }
                }
                assert forall|q: Seq<char>| tm_has(iv2, q) implies (#[trigger] tm_get(
                    iv2,
                    q,
                )).len() > 0 by {
                    assert(tm_has(iv, q));
                    if q != t {
                        assert(tm_get(iv2, q) == tm_get(iv, q));
                        assert(tm_get(iv, q).len() > 0);
                    } else {
                        assert(tm_get(iv2, q) == pmv2);
                    }
                }
                assert forall|q: Seq<char>|
                    #![trigger tm_has(iv2, q)]
                    tm_has(iv2, q) <==> (other_doc_has(a, dv, xid, q) || extra2.dom().contains(
                        q,
                    )) by {
                    if q == t {
                        // another document still holds the term
                        assert(pmv2.len() > 0);
                        let w: int = 0;
                        crate::postings::lemma_pm_entry_has(pmv2, w);
                        let q2 = pmv2[w].0;
                        assert(pm_has(pmv2, q2));
                        assert(pm_has(pmv, q2) && q2 != xid);
                        assert(pm_has(tm_get(iv, t), q2));
                        assert(dm_has(dv, q2) && has_term(a, dm_get(dv, q2), t));
                        assert(other_doc_has(a, dv, xid, t));
                        assert(tm_has(iv2, q) == tm_has(iv, q));
                    } else {
                        assert(tm_has(iv2, q) == tm_has(iv, q));
                        assert(tm_has(iv, q) <==> (other_doc_has(a, dv, xid, q)
                            || extra.dom().contains(q)));
                    }
                }
                assert forall|q: Seq<char>, id: u64|
                    tm_has(iv2, q) implies (#[trigger] pm_has(tm_get(iv2, q), id) <==> if id == xid {
                    extra2.dom().contains(q)
                } else {
                    dm_has(dv, id) && has_term(a, dm_get(dv, id), q)
                }) by {
                    if q != t {
                        assert(tm_has(iv, q));
                        assert(tm_get(iv2, q) == tm_get(iv, q));
                        assert(pm_has(tm_get(iv2, q), id) == pm_has(tm_get(iv, q), id));
                    } else {
                        assert(tm_get(iv2, q) == pmv2);
                        assert(pm_has(tm_get(iv, t), id) == pm_has(pmv, id));
                        if id != xid {
                            assert(pm_has(pmv2, id) == pm_has(pmv, id));
                        } else {
                            assert(!pm_has(pmv2, id));
                        }
                    }
                }
                assert forall|q: Seq<char>, id: u64|
                    tm_has(iv2, q) && #[trigger] pm_has(tm_get(iv2, q), id) implies pm_get(
                    tm_get(iv2, q),
                    id,
                ) == (if id == xid {
                    extra2[q]
                } else {
                    plist(a, dm_get(dv, id), q)
                }) by {
                    if q != t {
                        assert(tm_has(iv, q));
                        assert(tm_get(iv2, q) == tm_get(iv, q));
                        assert(pm_has(tm_get(iv, q), id));
                        assert(pm_get(tm_get(iv, q), id) == (if id == xid {
                            extra[q]
                        } else {
                            plist(a, dm_get(dv, id), q)
                        }));
                    } else {
                        assert(tm_get(iv2, q) == pmv2);
                        assert(id != xid);
                        assert(pm_has(pmv, id));
                        assert(pm_has(tm_get(iv, t), id));
                        assert(pm_get(tm_get(iv, t), id) == plist(a, dm_get(dv, id), q));
                        assert(pm_get(pmv2, id) == pm_get(pmv, id));
                    }
                }
            }
        } else {
            // the document was not recorded under this term
            assert(!extra.dom().contains(t));
            assert(extra2 =~= extra);
            assert(pmv.len() > 0);
            assert(iv2 == iv.update(f, (t, pmv)));
            assert(iv[f] == (t, pmv));
            assert(iv2 =~= iv);
        }
    }
}

/// The term map after recording position `p` of document `xid` under term
/// `t`: the position joins the document\'s list under the term, with entries
/// for the term and the document created at their sorted places on demand.
pub open spec fn spec_add_doc_pos(
    iv: Seq<(Seq<char>, Seq<(u64, Seq<Position>)>)>,
    t: Seq<char>,
    xid: u64,
    p: Position,
) -> Seq<(Seq<char>, Seq<(u64, Seq<Position>)>)> {
    if tm_has(iv, t) {
        iv.update(tm_find(iv, t), (t, spec_pm_add(tm_get(iv, t), xid, p)))
    } else {
        iv.insert(tm_lower(iv, t), (t, seq![(xid, seq![p])]))
    }
}

/// Recording one position of document `xid` moves a canonical mid-state one
/// step on: the document\'s contribution for that term grows by the
/// position, coalesced in.
pub proof fn lemma_models_add_pos(
    a: Analyzer,
    iv: Seq<(Seq<char>, Seq<(u64, Seq<Position>)>)>,
    dv: Seq<(u64, Seq<char>)>,
    xid: u64,
    extra: Map<Seq<char>, Seq<Position>>,
    t: Seq<char>,
    p: Position,
)
    requires
        models_with(a, iv, dv, xid, extra),
    ensures
        models_with(
            a,
            spec_add_doc_pos(iv, t, xid, p),
            dv,
            xid,
            extra.insert(
                t,
                if extra.dom().contains(t) {
                    spec_search_coalesce(extra[t], 0, p).0
                } else {
                    seq![p]
                },
            ),
        ),
{
    let iv2 = spec_add_doc_pos(iv, t, xid, p);
    let nl = if extra.dom().contains(t) {
        spec_search_coalesce(extra[t], 0, p).0
    } else {
        seq![p]
    };
    let extra2 = extra.insert(t, nl);
    if tm_has(iv, t) {
        lemma_tm_find_props(iv, t);
        let f = tm_find(iv, t);
        let pmv = tm_get(iv, t);
        assert(pm_wf(pmv));
        let pmv2 = spec_pm_add(pmv, xid, p);
        lemma_pm_add_props(pmv, xid, p);
        lemma_tm_update_props(iv, t, pmv2);
        assert(iv2 == iv.update(f, (t, pmv2)));
        assert(pm_has(pmv, xid) <==> extra.dom().contains(t));
        assert forall|k: int| 0 <= k < iv2.len() implies pm_wf((#[trigger] iv2[k]).1) by {
            if k != f {
                assert(iv2[k] == iv[k]);
            } else {
                assert(iv2[k].1 == pmv2);
            }
        }
        assert forall|q: Seq<char>|
            #![trigger tm_has(iv2, q)]
            tm_has(iv2, q) <==> (other_doc_has(a, dv, xid, q) || extra2.dom().contains(q)) by {
            assert(tm_has(iv2, q) == tm_has(iv, q));
            assert(tm_has(iv, q) <==> (other_doc_has(a, dv, xid, q) || extra.dom().contains(q)));
        }
        assert forall|q: Seq<char>| tm_has(iv2, q) implies (#[trigger] tm_get(iv2, q)).len()
            > 0 by {
            assert(tm_has(iv, q));
            if q != t {
                assert(tm_get(iv2, q) == tm_get(iv, q));
                assert(tm_get(iv, q).len() > 0);
            } else {
                assert(tm_get(iv2, q) == pmv2);
            }
        }
        assert forall|q: Seq<char>, id: u64|
            tm_has(iv2, q) implies (#[trigger] pm_has(tm_get(iv2, q), id) <==> if id == xid {
            extra2.dom().contains(q)
        } else {
            dm_has(dv, id) && has_term(a, dm_get(dv, id), q)
        }) by {
            assert(tm_has(iv, q));
            if q != t {
                assert(tm_get(iv2, q) == tm_get(iv, q));
                assert(pm_has(tm_get(iv2, q), id) == pm_has(tm_get(iv, q), id));
            } else {
                assert(tm_get(iv2, q) == pmv2);
                assert(pm_has(tm_get(iv, t), id) == pm_has(pmv, id));
            }
        }
        assert forall|q: Seq<char>, id: u64|
            tm_has(iv2, q) && #[trigger] pm_has(tm_get(iv2, q), id) implies pm_get(
            tm_get(iv2, q),
            id,
        ) == (if id == xid {
            extra2[q]
        } else {
            plist(a, dm_get(dv, id), q)
        }) by {
            assert(tm_has(iv, q));
            if q != t {
                assert(tm_get(iv2, q) == tm_get(iv, q));
                assert(pm_has(tm_get(iv, q), id));
                assert(pm_get(tm_get(iv, q), id) == (if id == xid {
                    extra[q]
                } else {
                    plist(a, dm_get(dv, id), q)
                }));
            } else {
                assert(tm_get(iv2, q) == pmv2);
                if id == xid {
                    if extra.dom().contains(t) {
                        assert(pm_has(pmv, xid));
                        assert(pm_get(pmv, xid) == extra[t]);
                        assert(pm_get(pmv2, xid) == spec_search_coalesce(extra[t], 0, p).0);
                    } else {
                        assert(!pm_has(pmv, xid));
                        assert(pm_get(pmv2, xid) == seq![p]);
                    }
                } else {
                    assert(pm_has(pmv, id));
                    assert(pm_get(pmv2, id) == pm_get(pmv, id));
                }
            }
        }
    } else {
        assert(!extra.dom().contains(t));
        let at = tm_lower(iv, t);
        let pmv2: Seq<(u64, Seq<Position>)> = seq![(xid, seq![p])];
        lemma_tm_insert_props(iv, t, pmv2);
        assert(iv2 == iv.insert(at, (t, pmv2)));
        lemma_tm_lower_props(iv, t);
        assert(pm_wf(pmv2));
        assert forall|k: int| 0 <= k < iv2.len() implies pm_wf((#[trigger] iv2[k]).1) by {
            if k < at {
                assert(iv2[k] == iv[k]);
            } else if k > at {
                assert(iv2[k] == iv[k - 1]);
            } else {
                assert(iv2[k].1 == pmv2);
            }
        }
        // facts about the one-entry postings map
        assert(pm_find(pmv2, xid) == 0);
        assert(pm_has(pmv2, xid));
        assert(pm_get(pmv2, xid) == seq![p]);
        assert forall|id: u64| id != xid implies !pm_has(pmv2, id) by {
            lemma_pm_has(pmv2, id);
            if pm_has(pmv2, id) {
                let w = choose|w: int| 0 <= w < pmv2.len() && (#[trigger] pmv2[w]).0 == id;
                assert(pmv2[0].0 == xid);
            }
        }
        assert(!other_doc_has(a, dv, xid, t));
        assert forall|q: Seq<char>|
            #![trigger tm_has(iv2, q)]
            tm_has(iv2, q) <==> (other_doc_has(a, dv, xid, q) || extra2.dom().contains(q)) by {
            if q != t {
                assert(tm_has(iv2, q) == tm_has(iv, q));
                assert(tm_has(iv, q) <==> (other_doc_has(a, dv, xid, q) || extra.dom().contains(
                    q,
                )));
            } else {
                assert(tm_has(iv2, q));
            }
        }
        assert forall|q: Seq<char>| tm_has(iv2, q) implies (#[trigger] tm_get(iv2, q)).len()
            > 0 by {
            if q != t {
                assert(tm_has(iv, q));
                assert(tm_get(iv2, q) == tm_get(iv, q));
                assert(tm_get(iv, q).len() > 0);
            } else {
                assert(tm_get(iv2, q) == pmv2);
            }
        }
        assert forall|q: Seq<char>, id: u64|
            tm_has(iv2, q) implies (#[trigger] pm_has(tm_get(iv2, q), id) <==> if id == xid {
            extra2.dom().contains(q)
        } else {
            dm_has(dv, id) && has_term(a, dm_get(dv, id), q)
        }) by {
            if q != t {
                assert(tm_has(iv, q));
                assert(tm_get(iv2, q) == tm_get(iv, q));
                assert(pm_has(tm_get(iv2, q), id) == pm_has(tm_get(iv, q), id));
            } else {
                assert(tm_get(iv2, q) == pmv2);
                if id != xid {
                    assert(!pm_has(pmv2, id));
                    assert(!(dm_has(dv, id) && has_term(a, dm_get(dv, id), q))) by {
                        if dm_has(dv, id) && has_term(a, dm_get(dv, id), q) {
                            assert(other_doc_has(a, dv, xid, q));
                        }
                    }
                }
            }
        }
        assert forall|q: Seq<char>, id: u64|
            tm_has(iv2, q) && #[trigger] pm_has(tm_get(iv2, q), id) implies pm_get(
            tm_get(iv2, q),
            id,
        ) == (if id == xid {
            extra2[q]
        } else {
            plist(a, dm_get(dv, id), q)
        }) by {
            if q != t {
                assert(tm_has(iv, q));
                assert(tm_get(iv2, q) == tm_get(iv, q));
                assert(pm_has(tm_get(iv, q), id));
                assert(pm_get(tm_get(iv, q), id) == (if id == xid {
                    extra[q]
                } else {
                    plist(a, dm_get(dv, id), q)
                }));
            } else {
                assert(tm_get(iv2, q) == pmv2);
                assert(id == xid) by {
                    if id != xid {
                        assert(!pm_has(pmv2, id));
                    }
                }
            }
        }
    }
}

/// In a well-formed document store an id appears at exactly one index.
pub proof fn lemma_dm_at_find(v: Seq<(u64, Seq<char>)>, k: int)
    requires
        dm_wf(v),
        0 <= k < v.len(),
    ensures
        dm_find(v, v[k].0) == k,
{
    lemma_dm_find_props(v, v[k].0);
    let f = dm_find(v, v[k].0);
    if f < k {
        assert(v[f].0 < v[k].0);
    }
    if f > k {
        assert(v[k].0 != v[k].0) by {
            assert(forall|j: int| 0 <= j < f ==> (#[trigger] v[j]).0 != v[k].0);
        }
    }
}

/// First index of the document store view whose id is at or above `id`.
pub open spec fn dm_lower(v: Seq<(u64, Seq<char>)>, id: u64) -> int
    decreases v.len(),
{
    if v.len() == 0 {
        0
    } else if v[0].0 >= id {
        0
    } else {
        1 + dm_lower(v.drop_first(), id)
    }
}

pub proof fn lemma_dm_lower_props(v: Seq<(u64, Seq<char>)>, id: u64)
    ensures
        0 <= dm_lower(v, id) <= v.len(),
        dm_lower(v, id) < v.len() ==> v[dm_lower(v, id)].0 >= id,
        forall|j: int| 0 <= j < dm_lower(v, id) ==> (#[trigger] v[j]).0 < id,
    decreases v.len(),
{
    if v.len() > 0 && v[0].0 < id {
        lemma_dm_lower_props(v.drop_first(), id);
        assert forall|j: int| 0 <= j < dm_lower(v, id) implies (#[trigger] v[j]).0 < id by {
            if j > 0 {
                assert(v.drop_first()[j - 1].0 < id);
            }
        }
    }
}

pub proof fn lemma_dm_lower_unique(v: Seq<(u64, Seq<char>)>, id: u64, i: int)
    requires
        0 <= i <= v.len(),
        i < v.len() ==> v[i].0 >= id,
        forall|j: int| 0 <= j < i ==> (#[trigger] v[j]).0 < id,
    ensures
        dm_lower(v, id) == i,
    decreases v.len(),
{
    if v.len() > 0 && v[0].0 < id {
        assert forall|j: int| 0 <= j < i - 1 implies (#[trigger] v.drop_first()[j]).0 < id by {
            assert(v[j + 1].0 < id);
        }
        assert(i > 0);
        lemma_dm_lower_unique(v.drop_first(), id, i - 1);
    }
}

/// Replacing the content stored under an id changes exactly that entry.
pub proof fn lemma_dm_replace_props(v: Seq<(u64, Seq<char>)>, f: int, c: Seq<char>)
    requires
        dm_wf(v),
        0 <= f < v.len(),
    ensures
        dm_wf(v.update(f, (v[f].0, c))),
        forall|q: u64| dm_has(#[trigger] v.update(f, (v[f].0, c)), q) == dm_has(v, q),
        dm_get(v.update(f, (v[f].0, c)), v[f].0) == c,
        forall|q: u64|
            q != v[f].0 && dm_has(v, q) ==> dm_get(#[trigger] v.update(f, (v[f].0, c)), q)
                == dm_get(v, q),
{
    let v2 = v.update(f, (v[f].0, c));
    assert forall|i: int, j: int| 0 <= i < j < v2.len() implies (#[trigger] v2[i]).0
        < (#[trigger] v2[j]).0 by {
        assert(v2[i].0 == v[i].0 && v2[j].0 == v[j].0);
    }
    assert forall|q: u64| true implies (dm_has(v2, q) == dm_has(v, q)) && (q != v[f].0 && dm_has(
        v,
        q,
    ) ==> dm_get(v2, q) == dm_get(v, q)) by {
        lemma_dm_has(v, q);
        lemma_dm_has(v2, q);
        if dm_has(v, q) {
            let k = dm_find(v, q);
            lemma_dm_find_props(v, q);
            assert(v2[k].0 == q);
            lemma_dm_at_find(v2, k);
            if q != v[f].0 {
                assert(k != f);
                assert(v2[k] == v[k]);
            }
        }
        if dm_has(v2, q) {
            let k = dm_find(v2, q);
            lemma_dm_find_props(v2, q);
            assert(v[k].0 == q);
        }
    }
    assert(v2[f].0 == v[f].0);
    lemma_dm_at_find(v2, f);
}

/// Inserting a document at its sorted place adds exactly that id.
pub proof fn lemma_dm_insert_props(v: Seq<(u64, Seq<char>)>, id: u64, c: Seq<char>)
    requires
        dm_wf(v),
        !dm_has(v, id),
    ensures
        dm_wf(v.insert(dm_lower(v, id), (id, c))),
        forall|q: u64|
            dm_has(#[trigger] v.insert(dm_lower(v, id), (id, c)), q) <==> (dm_has(v, q) || q
                == id),
        dm_get(v.insert(dm_lower(v, id), (id, c)), id) == c,
        forall|q: u64|
            q != id && dm_has(v, q) ==> dm_get(#[trigger] v.insert(dm_lower(v, id), (id, c)), q)
                == dm_get(v, q),
{
    let at = dm_lower(v, id);
    lemma_dm_lower_props(v, id);
    lemma_dm_has(v, id);
    let v2 = v.insert(at, (id, c));
    assert forall|j: int| at <= j < v.len() implies id < (#[trigger] v[j]).0 by {
        assert(v[at].0 >= id && v[at].0 != id);
        if j > at {
            assert(v[at].0 < v[j].0);
        }
    }
    assert forall|i: int, j: int| 0 <= i < j < v2.len() implies (#[trigger] v2[i]).0
        < (#[trigger] v2[j]).0 by {
        let i2: int = if i < at {
            i
        } else {
            i - 1
        };
        let j2: int = if j < at {
            j
        } else {
            j - 1
        };
        if i != at {
            assert(v2[i] == v[i2]);
        } else {
            assert(v2[i] == (id, c));
        }
        if j != at {
            assert(v2[j] == v[j2]);
        } else {
            assert(v2[j] == (id, c));
        }
    }
    assert forall|q: u64| true implies ((dm_has(v2, q) <==> (dm_has(v, q) || q == id)) && (q != id
        && dm_has(v, q) ==> dm_get(v2, q) == dm_get(v, q))) by {
        lemma_dm_has(v, q);
        lemma_dm_has(v2, q);
        if q == id {
            assert(v2[at] == (id, c));
            assert(v2[at].0 == q);
            assert(dm_has(v2, q));
        }
        if dm_has(v, q) {
            let k = dm_find(v, q);
            lemma_dm_find_props(v, q);
            assert(v[k].0 == q);
            let k2: int = if k < at {
                k
            } else {
                k + 1
            };
            assert(v2[k2] == v[k]);
            assert(v2[k2].0 == q);
            lemma_dm_at_find(v2, k2);
            if q != id {
                lemma_dm_at_find(v, k);
                assert(dm_get(v2, q) == v2[k2].1);
                assert(dm_get(v, q) == v[k].1);
            }
        }
        if dm_has(v2, q) && q != id {
            let k2 = dm_find(v2, q);
            lemma_dm_find_props(v2, q);
            assert(v2[k2].0 == q);
            assert(v2[at] == (id, c));
            assert(k2 != at);
            let k: int = if k2 < at {
                k2
            } else {
                k2 - 1
            };
            assert(v2[k2] == v[k]);
            assert(v[k].0 == q);
        }
    }
    assert(v2[at] == (id, c));
    lemma_dm_at_find(v2, at);
}

/// Bridging a canonical index to the mid-state view: the contributions of
/// document `xid` are exactly what its stored content produces, and the
/// rest of the store may change its entry for `xid` freely.
pub proof fn lemma_models_to_with(
    a: Analyzer,
    iv: Seq<(Seq<char>, Seq<(u64, Seq<Position>)>)>,
    dv: Seq<(u64, Seq<char>)>,
    dv2: Seq<(u64, Seq<char>)>,
    xid: u64,
)
    requires
        models(a, iv, dv),
        forall|id2: u64| id2 != xid ==> (dm_has(dv2, id2) == dm_has(dv, id2)),
        forall|id2: u64|
            id2 != xid && dm_has(dv, id2) ==> dm_get(dv2, id2) == dm_get(dv, id2),
    ensures
        models_with(
            a,
            iv,
            dv2,
            xid,
            if dm_has(dv, xid) {
                contributions(a, dm_get(dv, xid))
            } else {
                Map::<Seq<char>, Seq<Position>>::empty()
            },
        ),
{
    let extra = if dm_has(dv, xid) {
        contributions(a, dm_get(dv, xid))
    } else {
        Map::<Seq<char>, Seq<Position>>::empty()
    };
    assert forall|q: Seq<char>|
        #![trigger tm_has(iv, q)]
        tm_has(iv, q) <==> (other_doc_has(a, dv2, xid, q) || extra.dom().contains(q)) by {
        if tm_has(iv, q) {
            let id2 = choose|id2: u64|
                #![auto]
                dm_has(dv, id2) && has_term(a, dm_get(dv, id2), q);
            if id2 == xid {
                assert(extra.dom().contains(q));
            } else {
                assert(other_doc_has(a, dv2, xid, q));
            }
        }
        if other_doc_has(a, dv2, xid, q) {
            let id2 = choose|id2: u64|
                #![auto]
                id2 != xid && dm_has(dv2, id2) && has_term(a, dm_get(dv2, id2), q);
            assert(dm_has(dv, id2) && has_term(a, dm_get(dv, id2), q));
            assert(tm_has(iv, q));
        }
        if extra.dom().contains(q) {
            assert(dm_has(dv, xid) && has_term(a, dm_get(dv, xid), q));
            assert(tm_has(iv, q));
        }
    }
    assert forall|q: Seq<char>, id: u64|
        tm_has(iv, q) implies (#[trigger] pm_has(tm_get(iv, q), id) <==> if id == xid {
        extra.dom().contains(q)
    } else {
        dm_has(dv2, id) && has_term(a, dm_get(dv2, id), q)
    }) by {
        assert(pm_has(tm_get(iv, q), id) <==> (dm_has(dv, id) && has_term(a, dm_get(dv, id), q)));
    }
    assert forall|q: Seq<char>, id: u64|
        tm_has(iv, q) && #[trigger] pm_has(tm_get(iv, q), id) implies pm_get(tm_get(iv, q), id)
            == (if id == xid {
            extra[q]
        } else {
            plist(a, dm_get(dv2, id), q)
        }) by {
        assert(pm_get(tm_get(iv, q), id) == plist(a, dm_get(dv, id), q));
        assert(dm_has(dv, id) && has_term(a, dm_get(dv, id), q));
    }
}

/// Bridging back: when the recorded contributions of `xid` are exactly what
/// its stored content produces, the index is canonical again.
pub proof fn lemma_with_to_models(
    a: Analyzer,
    iv: Seq<(Seq<char>, Seq<(u64, Seq<Position>)>)>,
    dv: Seq<(u64, Seq<char>)>,
    xid: u64,
    c: Seq<char>,
)
    requires
        models_with(a, iv, dv, xid, contributions(a, c)),
        dm_has(dv, xid),
        dm_get(dv, xid) == c,
    ensures
        models(a, iv, dv),
{
    let extra = contributions(a, c);
    assert forall|q: Seq<char>|
        #![trigger tm_has(iv, q)]
        tm_has(iv, q) <==> exists|id2: u64| #![auto] dm_has(dv, id2) && has_term(
            a,
            dm_get(dv, id2),
            q,
        ) by {
        if tm_has(iv, q) {
            if extra.dom().contains(q) {
                assert(dm_has(dv, xid) && has_term(a, dm_get(dv, xid), q));
            } else {
                assert(other_doc_has(a, dv, xid, q));
                let id2 = choose|id2: u64|
                    #![auto]
                    id2 != xid && dm_has(dv, id2) && has_term(a, dm_get(dv, id2), q);
                assert(dm_has(dv, id2) && has_term(a, dm_get(dv, id2), q));
            }
        }
        if exists|id2: u64| #![auto] dm_has(dv, id2) && has_term(a, dm_get(dv, id2), q) {
            let id2 = choose|id2: u64|
                #![auto]
                dm_has(dv, id2) && has_term(a, dm_get(dv, id2), q);
            if id2 == xid {
                assert(extra.dom().contains(q));
            } else {
                assert(other_doc_has(a, dv, xid, q));
            }
            assert(tm_has(iv, q));
        }
    }
    assert forall|q: Seq<char>, id: u64|
        tm_has(iv, q) implies (#[trigger] pm_has(tm_get(iv, q), id) <==> (dm_has(dv, id)
            && has_term(a, dm_get(dv, id), q))) by {
        assert(pm_has(tm_get(iv, q), id) <==> if id == xid {
            extra.dom().contains(q)
        } else {
            dm_has(dv, id) && has_term(a, dm_get(dv, id), q)
        });
    }
    assert forall|q: Seq<char>, id: u64|
        tm_has(iv, q) && #[trigger] pm_has(tm_get(iv, q), id) implies pm_get(tm_get(iv, q), id)
            == plist(a, dm_get(dv, id), q) by {
        assert(pm_get(tm_get(iv, q), id) == (if id == xid {
            extra[q]
        } else {
            plist(a, dm_get(dv, id), q)
        }));
    }
}

/// The contributions of the previous content still recorded after the first
/// `k` items of its analyzed stream have been walked for removal.
pub open spec fn removal_extra(a: Analyzer, c: Seq<char>, k: int) -> Map<Seq<char>, Seq<Position>> {
    Map::new(
        |t: Seq<char>| has_term(a, c, t) && !has_occ(stream(a, c).take(k), t),
        |t: Seq<char>| plist(a, c, t),
    )
}

/// The contributions of the new content recorded after the first `k` items
/// of its analyzed stream have been walked for insertion.
pub open spec fn addition_extra(a: Analyzer, c: Seq<char>, k: int) -> Map<
    Seq<char>,
    Seq<Position>,
> {
    Map::new(
        |t: Seq<char>| has_occ(stream(a, c).take(k), t),
        |t: Seq<char>| build_plist(occs(stream(a, c).take(k), t)),
    )
}

/// A basic implementation of an inverted index: a data structure that maps
/// words to postings, beside the store of indexed documents.
#[derive(Debug)]
pub struct InvertedIndex {
    /// Maps terms to their postings, sorted by term.
    pub index: Vec<(String, PostingsMap)>,
    /// Maps doc ids to their documents, sorted by id.
    pub docs: Vec<(u64, Document)>,
    /// The analyzer applied to queries.
    pub query_analyzer: Analyzer,
    /// The analyzer applied to documents.
    pub doc_analyzer: Analyzer,
}

/// Builder for an inverted index with chosen analyzers.
pub struct InvertedIndexBuilder {
    /// The analyzer to use on queries.
    pub query_analyzer: Analyzer,
    /// The analyzer to use on documents.
    pub doc_analyzer: Analyzer,
}

impl InvertedIndexBuilder {
    /// Builds an empty inverted index using the chosen analyzers.
    pub fn build(self) -> (r: InvertedIndex)
        ensures
            r.inv(),
            r.tm_view().len() == 0,
            r.dm_view().len() == 0,
            r.query_analyzer == self.query_analyzer,
            r.doc_analyzer == self.doc_analyzer,
    {
        let r = InvertedIndex {
            index: Vec::new(),
            docs: Vec::new(),
            query_analyzer: self.query_analyzer,
            doc_analyzer: self.doc_analyzer,
        };
        proof {
            r.lemma_empty_inv();
        }
        r
    }
}

impl InvertedIndex {
    /// The abstract term map: term views paired with postings map views.
    pub open spec fn tm_view(self) -> Seq<(Seq<char>, Seq<(u64, Seq<Position>)>)> {
        tm_view_of(self.index@)
    }

    /// The abstract document store: ids paired with content views.
    pub open spec fn dm_view(self) -> Seq<(u64, Seq<char>)> {
        dm_view_of(self.docs@)
    }

    /// Well-formedness: both stores sorted, every postings map sorted, the
    /// stored document ids agree with their keys, and the index is the
    /// canonical one for the stored documents: a term is recorded exactly
    /// when some document's analyzed stream produces it; a document appears
    /// under a term exactly when its own stream produces that term; and the
    /// recorded postings list is the canonical coalesced occurrence list.
    pub open spec fn inv(self) -> bool {
        &&& models(self.doc_analyzer, self.tm_view(), self.dm_view())
        &&& dm_wf(self.dm_view())
        &&& forall|k: int|
            0 <= k < self.docs@.len() ==> (#[trigger] self.docs@[k]).1.id == self.docs@[k].0
    }

    proof fn lemma_empty_inv(self)
        requires
            self.index@.len() == 0,
            self.docs@.len() == 0,
        ensures
            self.inv(),
    {
        assert(self.tm_view().len() == 0);
        assert(self.dm_view().len() == 0);
    }

    /// Constructs a new, empty inverted index: whitespace analysis for
    /// queries, ngram analysis for documents.
    pub fn new() -> (r: InvertedIndex)
        ensures
            r.inv(),
            r.tm_view().len() == 0,
            r.dm_view().len() == 0,
            r.query_analyzer == Analyzer::Whitespace,
            r.doc_analyzer == Analyzer::Ngrams,
    {
        InvertedIndexBuilder {
            query_analyzer: Analyzer::Whitespace,
            doc_analyzer: Analyzer::Ngrams,
        }.build()
    }

    /// The number of documents stored.
    pub fn doc_count(&self) -> (n: usize)
        ensures
            n == self.dm_view().len(),
    {
        self.docs.len()
    }
}

impl InvertedIndex {
    /// Storage index of term `t`, or the term map\'s length when absent.
    pub(crate) fn find_term(&self, t: &String) -> (r: usize)
        ensures
            r as int == tm_find(self.tm_view(), t@),
            r <= self.tm_view().len(),
    {
        proof {
            lemma_tm_find_props(self.tm_view(), t@);
        }
        let mut i: usize = 0;
        while i < self.index.len()
            invariant
                i <= self.tm_view().len(),
                self.tm_view().len() == self.index@.len(),
                forall|j: int| 0 <= j < i ==> (#[trigger] self.tm_view()[j]).0 != t@,
            decreases self.index@.len() - i,
        {
            if self.index[i].0 == *t {
                proof {
                    assert(self.tm_view()[i as int].0 == t@);
                    lemma_tm_find_unique(self.tm_view(), t@, i as int);
                }
                return i;
            }
            proof {
                assert(self.tm_view()[i as int].0 == self.index@[i as int].0@);
            }
            i = i + 1;
        }
        proof {
            if tm_find(self.tm_view(), t@) < self.tm_view().len() {
                assert(self.tm_view()[tm_find(self.tm_view(), t@)].0 == t@);
            }
        }
        i
    }

    /// First storage index whose term is at or above `t`.
    pub(crate) fn lower_term(&self, t: &String) -> (r: usize)
        ensures
            r as int == tm_lower(self.tm_view(), t@),
            r <= self.tm_view().len(),
    {
        let mut i: usize = 0;
        while i < self.index.len()
            invariant
                i <= self.tm_view().len(),
                self.tm_view().len() == self.index@.len(),
                forall|j: int| 0 <= j < i ==> !lex_le(t@, (#[trigger] self.tm_view()[j]).0),
            decreases self.index@.len() - i,
        {
            if str_le(t.as_str(), self.index[i].0.as_str()) {
                proof {
                    assert(lex_le(t@, self.tm_view()[i as int].0));
                    lemma_tm_lower_unique(self.tm_view(), t@, i as int);
                }
                return i;
            }
            proof {
                assert(self.tm_view()[i as int].0 == self.index@[i as int].0@);
            }
            i = i + 1;
        }
        proof {
            lemma_tm_lower_unique(self.tm_view(), t@, i as int);
        }
        i
    }

    /// Removes document `xid` from the postings of term `t`: the document
    /// leaves the term\'s postings map, and the term leaves the index when
    /// its map empties.  A term the index does not hold is left alone.
    fn remove_doc_term(&mut self, t: &String, xid: u64)
        ensures
            final(self).tm_view() == spec_remove_doc_term(old(self).tm_view(), t@, xid),
            final(self).docs == old(self).docs,
            final(self).query_analyzer == old(self).query_analyzer,
            final(self).doc_analyzer == old(self).doc_analyzer,
    {
        let f = self.find_term(t);
        proof {
            lemma_tm_find_props(self.tm_view(), t@);
        }
        if f < self.index.len() {
            let ghost iv = self.tm_view();
            let ghost pre = self.index@;
            let (ts, mut pm) = self.index.remove(f);
            let ghost pmv = pm@;
            proof {
                assert(iv[f as int] == (ts@, pmv));
                assert(ts@ == t@);
            }
            pm.remove_id(xid);
            if pm.is_empty() {
                proof {
                    lemma_tm_view_remove(pre, f as int);
                    assert(self.tm_view() =~= spec_remove_doc_term(iv, t@, xid)) by {
                        if pm_has(pmv, xid) {
                            assert(pmv.remove(pm_find(pmv, xid)).len() == 0);
                        } else {
                            lemma_pm_find_props(pmv, xid);
                        }
                    }
                }
            } else {
                let ghost mid = self.index@;
                self.index.insert(f, (ts, pm));
                proof {
                    lemma_tm_view_remove(pre, f as int);
                    lemma_tm_view_insert(mid, f as int, (ts, pm));
                    let pmv2 = if pm_has(pmv, xid) {
                        pmv.remove(pm_find(pmv, xid))
                    } else {
                        pmv
                    };
                    assert(pm@ == pmv2);
                    assert(self.tm_view() =~= iv.update(f as int, (t@, pmv2)));
                    assert(self.tm_view() =~= spec_remove_doc_term(iv, t@, xid));
                }
            }
        }
    }

    /// Records position `p` of document `xid` under term `t`, creating the
    /// term entry and the document\'s postings list at their sorted places
    /// when absent.
    fn add_doc_pos(&mut self, t: &String, xid: u64, p: Position)
        ensures
            final(self).tm_view() == spec_add_doc_pos(old(self).tm_view(), t@, xid, p),
            final(self).docs == old(self).docs,
            final(self).query_analyzer == old(self).query_analyzer,
            final(self).doc_analyzer == old(self).doc_analyzer,
    {
        let f = self.find_term(t);
        proof {
            lemma_tm_find_props(self.tm_view(), t@);
        }
        if f < self.index.len() {
            let ghost iv = self.tm_view();
            let ghost pre = self.index@;
            let (ts, mut pm) = self.index.remove(f);
            let ghost pmv = pm@;
            proof {
                assert(iv[f as int] == (ts@, pmv));
                assert(ts@ == t@);
            }
            pm.insert_pos(xid, p);
            let ghost mid = self.index@;
            self.index.insert(f, (ts, pm));
            proof {
                lemma_tm_view_remove(pre, f as int);
                lemma_tm_view_insert(mid, f as int, (ts, pm));
                assert(pm@ == spec_pm_add(pmv, xid, p));
                assert(tm_get(iv, t@) == pmv);
                assert(self.tm_view() =~= iv.update(f as int, (t@, spec_pm_add(pmv, xid, p))));
                assert(self.tm_view() =~= spec_add_doc_pos(iv, t@, xid, p));
            }
        } else {
            let at = self.lower_term(t);
            let ghost iv = self.tm_view();
            let mut pm = PostingsMap::new();
            pm.insert_pos(xid, p);
            let ts2 = t.clone();
            let ghost pre = self.index@;
            self.index.insert(at, (ts2, pm));
            proof {
                lemma_tm_view_insert(pre, at as int, self.index@[at as int]);
                assert(pm@ =~= seq![(xid, seq![p])]) by {
                    assert(pm@ == spec_pm_add(Seq::<(u64, Seq<Position>)>::empty(), xid, p));
                }
                assert(self.tm_view() =~= iv.insert(at as int, (t@, seq![(xid, seq![p])])));
                assert(self.tm_view() =~= spec_add_doc_pos(iv, t@, xid, p));
            }
        }
    }

    /// Stores the document, replacing any previous version with the same id
    /// and returning it.
    fn store_doc(&mut self, doc: Document) -> (prev: Option<Document>)
        requires
            dm_wf(old(self).dm_view()),
            forall|k: int|
                0 <= k < old(self).docs@.len() ==> (#[trigger] old(self).docs@[k]).1.id == old(
                    self,
                ).docs@[k].0,
        ensures
            final(self).index == old(self).index,
            final(self).query_analyzer == old(self).query_analyzer,
            final(self).doc_analyzer == old(self).doc_analyzer,
            dm_wf(final(self).dm_view()),
            forall|k: int|
                0 <= k < final(self).docs@.len() ==> (#[trigger] final(self).docs@[k]).1.id
                    == final(self).docs@[k].0,
            dm_has(final(self).dm_view(), doc.id),
            dm_get(final(self).dm_view(), doc.id) == doc.content@,
            forall|id2: u64|
                id2 != doc.id ==> (dm_has(final(self).dm_view(), id2) == dm_has(
                    old(self).dm_view(),
                    id2,
                )),
            forall|id2: u64|
                id2 != doc.id && dm_has(old(self).dm_view(), id2) ==> dm_get(
                    final(self).dm_view(),
                    id2,
                ) == dm_get(old(self).dm_view(), id2),
            prev is Some <==> dm_has(old(self).dm_view(), doc.id),
            prev is Some ==> prev->Some_0.content@ == dm_get(old(self).dm_view(), doc.id),
            prev is Some ==> prev->Some_0.id == doc.id,
    {
        let id = doc.id;
        let ghost dv = self.dm_view();
        let mut f: usize = 0;
        while f < self.docs.len() && self.docs[f].0 < id
            invariant
                f <= self.dm_view().len(),
                self.dm_view().len() == self.docs@.len(),
                forall|j: int| 0 <= j < f ==> (#[trigger] self.dm_view()[j]).0 < id,
            decreases self.docs@.len() - f,
        {
            proof {
                assert(self.dm_view()[f as int].0 == self.docs@[f as int].0);
            }
            f = f + 1;
        }
        proof {
            if f < self.docs@.len() {
                assert(self.dm_view()[f as int].0 == self.docs@[f as int].0);
            }
            lemma_dm_lower_unique(dv, id, f as int);
        }
        if f < self.docs.len() && self.docs[f].0 == id {
            // replace the previous version
            proof {
                assert(dv[f as int].0 == id);
                lemma_dm_at_find(dv, f as int);
                assert(dm_has(dv, id));
            }
            let ghost pre = self.docs@;
            let (pid, prevdoc) = self.docs.remove(f);
            let ghost mid = self.docs@;
            self.docs.insert(f, (id, doc));
            proof {
                lemma_dm_view_remove(pre, f as int);
                lemma_dm_view_insert(mid, f as int, (id, self.docs@[f as int].1));
                assert(self.dm_view() =~= dv.update(f as int, (id, self.docs@[f as int].1.content@)));
                lemma_dm_replace_props(dv, f as int, self.docs@[f as int].1.content@);
                assert(prevdoc.content@ == dm_get(dv, id));
                assert forall|k: int|
                    0 <= k < self.docs@.len() implies (#[trigger] self.docs@[k]).1.id
                    == self.docs@[k].0 by {
                    if k < f {
                        assert(self.docs@[k] == pre[k]);
                    } else if k > f {
                        assert(self.docs@[k] == pre[k]);
                    }
                }
            }
            Some(prevdoc)
        } else {
            proof {
                assert(!dm_has(dv, id)) by {
                    lemma_dm_has(dv, id);
                    if dm_has(dv, id) {
                        let k = choose|k: int| 0 <= k < dv.len() && (#[trigger] dv[k]).0 == id;
                        lemma_dm_lower_props(dv, id);
                        if k < f {
                            assert(dv[k].0 < id);
                        } else if k > f {
                            assert(f < dv.len());
                            assert(dv[f as int].0 >= id);
                            assert(dv[f as int].0 < dv[k].0);
                            assert(dv[f as int].0 != id);
                            assert(dv[f as int].0 > id);
                            assert(dv[f as int].0 < dv[k].0 && dv[k].0 == id);
                        }
                    }
                }
            }
            let ghost pre = self.docs@;
            self.docs.insert(f, (id, doc));
            proof {
                lemma_dm_view_insert(pre, f as int, (id, self.docs@[f as int].1));
                assert(self.dm_view() =~= dv.insert(f as int, (id, self.docs@[f as int].1.content@)));
                lemma_dm_insert_props(dv, id, self.docs@[f as int].1.content@);
                assert forall|k: int|
                    0 <= k < self.docs@.len() implies (#[trigger] self.docs@[k]).1.id
                    == self.docs@[k].0 by {
                    if k < f {
                        assert(self.docs@[k] == pre[k]);
                    } else if k > f {
                        assert(self.docs@[k] == pre[k - 1]);
                    }
                }
            }
            None
        }
    }
}

impl InvertedIndex {
    /// Inserts the document, or replaces the stored version with the same
    /// id.  The document's content is analyzed and every produced (term,
    /// position) pair recorded; the terms of a replaced version are first
    /// unrecorded, so the index stays the canonical one for the stored
    /// documents: indexing is idempotent, and the index depends only on the
    /// final document set.
    pub fn index(&mut self, doc: Document)
        requires
            old(self).inv(),
        ensures
            final(self).inv(),
            final(self).query_analyzer == old(self).query_analyzer,
            final(self).doc_analyzer == old(self).doc_analyzer,
            dm_has(final(self).dm_view(), doc.id),
            dm_get(final(self).dm_view(), doc.id) == doc.content@,
            forall|id2: u64|
                id2 != doc.id ==> (dm_has(final(self).dm_view(), id2) == dm_has(
                    old(self).dm_view(),
                    id2,
                )),
            forall|id2: u64|
                id2 != doc.id && dm_has(old(self).dm_view(), id2) ==> dm_get(
                    final(self).dm_view(),
                    id2,
                ) == dm_get(old(self).dm_view(), id2),
    {
        let ghost a = self.doc_analyzer;
        let ghost dv0 = self.dm_view();
        let xid = doc.id;
        let ghost newc = doc.content@;
        let da = self.doc_analyzer;
        let new_pairs = da.analyze(doc.content());
        let prev = self.store_doc(doc);
        let ghost dv = self.dm_view();
        proof {
            lemma_models_to_with(a, old(self).tm_view(), dv0, dv, xid);
        }
        if let Some(prevdoc) = prev {
            let ghost oldc = prevdoc.content@;
            let prev_pairs = da.analyze(prevdoc.content());
            let ghost items = stream(a, oldc);
            proof {
                assert(contributions(a, oldc) =~= removal_extra(a, oldc, 0)) by {
                    assert forall|t: Seq<char>| !has_occ(items.take(0), t) by {
                        assert(items.take(0) =~= Seq::<(Seq<char>, int, int, int)>::empty());
                    }
                }
                assert(models_with(a, self.tm_view(), dv, xid, removal_extra(a, oldc, 0)));
            }
            let mut k: usize = 0;
            while k < prev_pairs.len()
                invariant
                    k <= prev_pairs@.len(),
                    pairs_view(prev_pairs@) == items,
                    items == stream(a, oldc),
                    a == self.doc_analyzer,
                    self.query_analyzer == old(self).query_analyzer,
                    self.doc_analyzer == old(self).doc_analyzer,
                    self.dm_view() == dv,
                    dm_wf(dv),
                    forall|w: int|
                        0 <= w < self.docs@.len() ==> (#[trigger] self.docs@[w]).1.id
                            == self.docs@[w].0,
                    models_with(a, self.tm_view(), dv, xid, removal_extra(a, oldc, k as int)),
                decreases prev_pairs@.len() - k,
            {
                let ghost pre_iv = self.tm_view();
                let ghost t = items[k as int].0;
                proof {
                    assert(pairs_view(prev_pairs@)[k as int].0 == prev_pairs@[k as int].0@);
                }
                let term = &prev_pairs[k].0;
                self.remove_doc_term(term, xid);
                proof {
                    assert(term@ == t);
                    lemma_models_remove_term(a, pre_iv, dv, xid, removal_extra(a, oldc, k as int), t);
                    assert(removal_extra(a, oldc, k as int).remove(t) =~= removal_extra(
                        a,
                        oldc,
                        k as int + 1,
                    )) by {
                        assert forall|q: Seq<char>|
                            (has_occ(items.take(k as int + 1), q) == (has_occ(
                                items.take(k as int),
                                q,
                            ) || items[k as int].0 == q)) by {
                            lemma_occs_take_step(items, q, k as int);
                        }
                    }
                }
                k = k + 1;
            }
            proof {
                assert(removal_extra(a, oldc, prev_pairs@.len() as int) =~= Map::<
                    Seq<char>,
                    Seq<Position>,
                >::empty()) by {
                    assert forall|t: Seq<char>| has_term(a, oldc, t) implies has_occ(
                        items.take(prev_pairs@.len() as int),
                        t,
                    ) by {
                        assert(items.take(items.len() as int) =~= items);
                    }
                }
            }
        }
        // record the new content
        let ghost items2 = stream(a, newc);
        proof {
            assert(addition_extra(a, newc, 0) =~= Map::<Seq<char>, Seq<Position>>::empty()) by {
                assert forall|t: Seq<char>| !has_occ(items2.take(0), t) by {
                    assert(items2.take(0) =~= Seq::<(Seq<char>, int, int, int)>::empty());
                }
            }
            assert(models_with(a, self.tm_view(), dv, xid, addition_extra(a, newc, 0)));
        }
        let mut k: usize = 0;
        while k < new_pairs.len()
            invariant
                k <= new_pairs@.len(),
                pairs_view(new_pairs@) == items2,
                items2 == stream(a, newc),
                a == self.doc_analyzer,
                self.query_analyzer == old(self).query_analyzer,
                self.doc_analyzer == old(self).doc_analyzer,
                self.dm_view() == dv,
                dm_wf(dv),
                forall|w: int|
                    0 <= w < self.docs@.len() ==> (#[trigger] self.docs@[w]).1.id
                        == self.docs@[w].0,
                models_with(a, self.tm_view(), dv, xid, addition_extra(a, newc, k as int)),
            decreases new_pairs@.len() - k,
        {
            let ghost pre_iv = self.tm_view();
            let ghost t = items2[k as int].0;
            let ghost prev_extra = addition_extra(a, newc, k as int);
            proof {
                assert(pairs_view(new_pairs@)[k as int].0 == new_pairs@[k as int].0@);
                assert(pairs_view(new_pairs@)[k as int].1 == new_pairs@[k as int].1.offsets.0 as int);
            }
            let term = &new_pairs[k].0;
            let p = new_pairs[k].1;
            proof {
                assert(item_pos(items2[k as int]) == p) by {
                    assert(items2[k as int] == (new_pairs@[k as int].0@,
                    new_pairs@[k as int].1.offsets.0 as int, new_pairs@[k as int].1.offsets.1 as int,
                    new_pairs@[k as int].1.position as int));
                }
            }
            self.add_doc_pos(term, xid, p);
            proof {
                assert(term@ == t);
                lemma_models_add_pos(a, pre_iv, dv, xid, prev_extra, t, p);
                let nl = if prev_extra.dom().contains(t) {
                    spec_search_coalesce(prev_extra[t], 0, p).0
                } else {
                    seq![p]
                };
                assert(prev_extra.insert(t, nl) =~= addition_extra(a, newc, k as int + 1)) by {
                    assert forall|q: Seq<char>|
                        (has_occ(items2.take(k as int + 1), q) == (has_occ(items2.take(k as int), q)
                            || items2[k as int].0 == q)) by {
                        lemma_occs_take_step(items2, q, k as int);
                    }
                    assert forall|q: Seq<char>|
                        addition_extra(a, newc, k as int + 1).dom().contains(q) implies
                        addition_extra(a, newc, k as int + 1)[q] == prev_extra.insert(t, nl)[q] by {
                        lemma_occs_take_step(items2, q, k as int);
                        if q == t {
                            let ps = occs(items2.take(k as int), t);
                            let ps2 = occs(items2.take(k as int + 1), t);
                            assert(ps2 =~= ps.push(p));
                            assert(ps2.drop_last() =~= ps);
                            assert(ps2.last() == p);
                            assert(build_plist(ps2) == spec_search_coalesce(build_plist(ps), 0, p).0);
                            if !prev_extra.dom().contains(t) {
                                assert(ps.len() == 0);
                                assert(ps =~= Seq::<Position>::empty());
                                assert(build_plist(ps) =~= Seq::<Position>::empty());
                                assert(crate::coalesce::spec_lower_from(
                                    Seq::<Position>::empty(),
                                    0,
                                    p,
                                ) == 0);
                                assert(build_plist(ps2) =~= seq![p]);
                            }
                        }
                    }
                }
            }
            k = k + 1;
        }
        proof {
            assert(addition_extra(a, newc, new_pairs@.len() as int) =~= contributions(a, newc)) by {
                assert(items2.take(items2.len() as int) =~= items2);
            }
            lemma_with_to_models(a, self.tm_view(), dv, xid, newc);
        }
    }
}

} // verus!
