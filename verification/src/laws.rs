//! The library's laws: index determinism, replacement, placement of
//! coalesced insertions, highlight identity, and when result lists are
//! empty.

use vstd::prelude::*;
use crate::chars::lex_lt;
use crate::coalesce::{Merge, spec_coalesce, spec_lower_from, spec_search_coalesce,
    lemma_lower_from_bounds};
use crate::index::{InvertedIndex, dm_get, dm_has, has_term, plist, tm_get, tm_has,
    lemma_tm_has, lemma_tm_at_find, lemma_tm_find_props};
use crate::postings::{Position, pm_get, pm_has, pm_wf, lemma_pm_has, lemma_pm_at_find,
    lemma_pm_find_props};
use crate::query::{dedup_terms, lookup, token_terms, union_of, lemma_union_of_props};
use crate::search_result::{SearchResult, spec_highlight};

verus! {

/// Two well-formed postings map views recording the same documents with
/// the same lists are the same view.
pub proof fn lemma_pm_view_unique(u: Seq<(u64, Seq<Position>)>, v: Seq<(u64, Seq<Position>)>)
    requires
        pm_wf(u),
        pm_wf(v),
        forall|id: u64| pm_has(u, id) == pm_has(v, id),
        forall|id: u64| pm_has(u, id) ==> pm_get(u, id) == pm_get(v, id),
    ensures
        u =~= v,
    decreases u.len(),
{
    if u.len() == 0 {
        if v.len() > 0 {
            crate::postings::lemma_pm_entry_has(v, 0);
            lemma_pm_has(u, v[0].0);
        }
    } else if v.len() == 0 {
        crate::postings::lemma_pm_entry_has(u, 0);
        lemma_pm_has(v, u[0].0);
    } else {
        // the heads carry the same id: each head's id is recorded in the
        // other view, and a strictly later slot would order the ids both
        // ways round
        crate::postings::lemma_pm_entry_has(u, 0);
        crate::postings::lemma_pm_entry_has(v, 0);
        lemma_pm_has(v, u[0].0);
        lemma_pm_has(u, v[0].0);
        let i = choose|i: int| 0 <= i < v.len() && (#[trigger] v[i]).0 == u[0].0;
        let j = choose|j: int| 0 <= j < u.len() && (#[trigger] u[j]).0 == v[0].0;
        assert(u[0].0 == v[0].0) by {
            if i > 0 && j > 0 {
                assert(v[0].0 < v[i].0);
                assert(u[0].0 < u[j].0);
            }
        }
        assert(u[0].1 == v[0].1) by {
            lemma_pm_at_find(u, 0);
            lemma_pm_at_find(v, 0);
            assert(pm_get(u, u[0].0) == u[0].1);
            assert(pm_get(v, u[0].0) == v[0].1);
        }
        let du = u.drop_first();
        let dv = v.drop_first();
        crate::postings::lemma_pm_wf_drop(u);
        crate::postings::lemma_pm_wf_drop(v);
        assert(u =~= seq![u[0]] + du);
        assert(v =~= seq![v[0]] + dv);
        assert forall|id: u64| (pm_has(du, id) == pm_has(dv, id)) && (pm_has(du, id) ==> pm_get(
            du,
            id,
        ) == pm_get(dv, id)) by {
            crate::postings::lemma_pm_cons(u[0], du, id);
            crate::postings::lemma_pm_cons(v[0], dv, id);
            if pm_has(du, id) {
                assert(id != u[0].0) by {
                    if id == u[0].0 {
                        crate::postings::lemma_pm_has_min(du, id);
                        assert(du[0] == u[1]);
                    }
                }
            }
            if pm_has(dv, id) {
                assert(id != v[0].0) by {
                    if id == v[0].0 {
                        crate::postings::lemma_pm_has_min(dv, id);
                        assert(dv[0] == v[1]);
                    }
                }
            }
        }
        lemma_pm_view_unique(du, dv);
    }
}

/// How `tm_find`, `tm_has` and `tm_get` act on a term map view with its
/// first entry split off.
pub proof fn lemma_tm_cons(
    h: (Seq<char>, Seq<(u64, Seq<Position>)>),
    t: Seq<(Seq<char>, Seq<(u64, Seq<Position>)>)>,
    q: Seq<char>,
)
    ensures
        tm_has(seq![h] + t, q) == (h.0 == q || tm_has(t, q)),
        tm_has(seq![h] + t, q) ==> crate::index::tm_get(seq![h] + t, q) == if h.0 == q {
            h.1
        } else {
            crate::index::tm_get(t, q)
        },
{
    let u = seq![h] + t;
    assert(u[0] == h);
    assert(u.drop_first() =~= t);
    lemma_tm_find_props(t, q);
    if h.0 != q && tm_has(t, q) {
        assert(u[1 + crate::index::tm_find(t, q)] == t[crate::index::tm_find(t, q)]);
    }
}

/// Dropping the first entry keeps a term map well-formed.
pub proof fn lemma_tm_wf_drop(v: Seq<(Seq<char>, Seq<(u64, Seq<Position>)>)>)
    requires
        crate::index::tm_wf(v),
        v.len() > 0,
    ensures
        crate::index::tm_wf(v.drop_first()),
{
    assert forall|i: int, j: int|
        0 <= i < j < v.drop_first().len() implies lex_lt(
        (#[trigger] v.drop_first()[i]).0,
        (#[trigger] v.drop_first()[j]).0,
    ) by {
        assert(v[i + 1] == v.drop_first()[i]);
        assert(v[j + 1] == v.drop_first()[j]);
    }
}

/// In a well-formed term map every recorded term is at or above the first.
pub proof fn lemma_tm_has_min(v: Seq<(Seq<char>, Seq<(u64, Seq<Position>)>)>, t: Seq<char>)
    requires
        crate::index::tm_wf(v),
        tm_has(v, t),
    ensures
        v.len() > 0,
        t == v[0].0 || lex_lt(v[0].0, t),
    decreases v.len(),
{
    lemma_tm_find_props(v, t);
    let f = crate::index::tm_find(v, t);
    assert(v[f].0 == t);
    if f > 0 {
        assert(lex_lt(v[0].0, v[f].0));
    }
}

/// Two well-formed term map views recording the same terms with the same
/// postings are the same view.
pub proof fn lemma_tm_view_unique(
    u: Seq<(Seq<char>, Seq<(u64, Seq<Position>)>)>,
    v: Seq<(Seq<char>, Seq<(u64, Seq<Position>)>)>,
)
    requires
        crate::index::tm_wf(u),
        crate::index::tm_wf(v),
        forall|t: Seq<char>| tm_has(u, t) == tm_has(v, t),
        forall|t: Seq<char>| tm_has(u, t) ==> tm_get(u, t) == tm_get(v, t),
    ensures
        u =~= v,
    decreases u.len(),
{
    if u.len() == 0 {
        if v.len() > 0 {
            lemma_tm_at_find(v, 0);
            assert(tm_has(v, v[0].0));
            lemma_tm_has(u, v[0].0);
        }
    } else if v.len() == 0 {
        lemma_tm_at_find(u, 0);
        assert(tm_has(u, u[0].0));
        lemma_tm_has(v, u[0].0);
    } else {
        lemma_tm_at_find(u, 0);
        lemma_tm_at_find(v, 0);
        assert(tm_has(u, u[0].0) && tm_has(v, v[0].0));
        lemma_tm_has_min(v, u[0].0);
        lemma_tm_has_min(u, v[0].0);
        assert(u[0].0 == v[0].0) by {
            if u[0].0 != v[0].0 {
                assert(lex_lt(v[0].0, u[0].0));
                assert(lex_lt(u[0].0, v[0].0));
                crate::chars::lemma_lex_le_antisym(u[0].0, v[0].0);
            }
        }
        assert(u[0].1 == v[0].1) by {
            assert(tm_get(u, u[0].0) == u[0].1);
            assert(tm_get(v, u[0].0) == v[0].1);
        }
        let du = u.drop_first();
        let dv = v.drop_first();
        lemma_tm_wf_drop(u);
        lemma_tm_wf_drop(v);
        assert(u =~= seq![u[0]] + du);
        assert(v =~= seq![v[0]] + dv);
        assert forall|t: Seq<char>| (tm_has(du, t) == tm_has(dv, t)) && (tm_has(du, t)
            ==> tm_get(du, t) == tm_get(dv, t)) by {
            lemma_tm_cons(u[0], du, t);
            lemma_tm_cons(v[0], dv, t);
            if tm_has(du, t) {
                assert(t != u[0].0) by {
                    if t == u[0].0 {
                        lemma_tm_has_min(du, t);
                        assert(du[0] == u[1]);
                        assert(lex_lt(u[0].0, u[1].0));
                        crate::chars::lemma_lex_le_antisym(u[0].0, u[1].0);
                    }
                }
            }
            if tm_has(dv, t) {
                assert(t != v[0].0) by {
                    if t == v[0].0 {
                        lemma_tm_has_min(dv, t);
                        assert(dv[0] == v[1]);
                        assert(lex_lt(v[0].0, v[1].0));
                        crate::chars::lemma_lex_le_antisym(v[0].0, v[1].0);
                    }
                }
            }
        }
        lemma_tm_view_unique(du, dv);
    }
}

/// Indexing is determined by the final document set: two well-formed
/// indexes built with the same document analyzer, whose stores hold the
/// same documents, have byte-identical term maps — whatever sequence of
/// insertions and replacements produced each.
pub proof fn lemma_index_deterministic(x: InvertedIndex, y: InvertedIndex)
    requires
        x.inv(),
        y.inv(),
        x.doc_analyzer == y.doc_analyzer,
        forall|id: u64| dm_has(x.dm_view(), id) == dm_has(y.dm_view(), id),
        forall|id: u64|
            dm_has(x.dm_view(), id) ==> dm_get(x.dm_view(), id) == dm_get(y.dm_view(), id),
    ensures
        x.tm_view() =~= y.tm_view(),
{
    let a = x.doc_analyzer;
    let u = x.tm_view();
    let v = y.tm_view();
    assert forall|t: Seq<char>| tm_has(u, t) == tm_has(v, t) by {
        if tm_has(u, t) {
            let id = choose|id: u64|
                #![auto]
                dm_has(x.dm_view(), id) && has_term(a, dm_get(x.dm_view(), id), t);
            assert(dm_has(y.dm_view(), id) && has_term(a, dm_get(y.dm_view(), id), t));
        }
        if tm_has(v, t) {
            let id = choose|id: u64|
                #![auto]
                dm_has(y.dm_view(), id) && has_term(a, dm_get(y.dm_view(), id), t);
            assert(dm_has(x.dm_view(), id) && has_term(a, dm_get(x.dm_view(), id), t));
        }
    }
    assert forall|t: Seq<char>| tm_has(u, t) implies tm_get(u, t) == tm_get(v, t) by {
        lemma_tm_find_props(u, t);
        lemma_tm_find_props(v, t);
        assert(pm_wf(tm_get(u, t)));
        assert(pm_wf(tm_get(v, t)));
        assert forall|id: u64| pm_has(tm_get(u, t), id) == pm_has(tm_get(v, t), id) by {
            assert(pm_has(tm_get(u, t), id) <==> (dm_has(x.dm_view(), id) && has_term(
                a,
                dm_get(x.dm_view(), id),
                t,
            )));
            assert(pm_has(tm_get(v, t), id) <==> (dm_has(y.dm_view(), id) && has_term(
                a,
                dm_get(y.dm_view(), id),
                t,
            )));
        }
        assert forall|id: u64| pm_has(tm_get(u, t), id) implies pm_get(tm_get(u, t), id) == pm_get(
            tm_get(v, t),
            id,
        ) by {
            assert(pm_get(tm_get(u, t), id) == plist(a, dm_get(x.dm_view(), id), t));
            assert(pm_has(tm_get(v, t), id));
            assert(pm_get(tm_get(v, t), id) == plist(a, dm_get(y.dm_view(), id), t));
        }
        lemma_pm_view_unique(tm_get(u, t), tm_get(v, t));
    }
    lemma_tm_view_unique(u, v);
}

/// Re-indexing reflects only the stored content: a document appears under
/// a term exactly when its current content produces that term, so the
/// terms of any replaced version are fully removed.
pub proof fn lemma_reindex_only_current(x: InvertedIndex, t: Seq<char>, id: u64)
    requires
        x.inv(),
        tm_has(x.tm_view(), t),
    ensures
        pm_has(tm_get(x.tm_view(), t), id) <==> (dm_has(x.dm_view(), id) && has_term(
            x.doc_analyzer,
            dm_get(x.dm_view(), id),
            t,
        )),
        pm_has(tm_get(x.tm_view(), t), id) ==> pm_get(tm_get(x.tm_view(), t), id) == plist(
            x.doc_analyzer,
            dm_get(x.dm_view(), id),
            t,
        ),
{
}

/// `search_coalesce` places the element where it was found or inserted: at
/// the returned index stands an element equal to the inserted one or a
/// merge absorbing it, except when the element merged into the left
/// neighbour, which then stands just before the returned index.
pub proof fn lemma_search_coalesce_places<T: Merge>(s: Seq<T>, start: int, el: T)
    requires
        0 <= start <= s.len(),
    ensures
        ({
            let (s2, i) = spec_search_coalesce(s, start, el);
            &&& start <= i <= s2.len()
            &&& (i < s2.len() && s2[i] == el) || (i < s2.len() && el.merge_spec(s[i]) is Some
                && s2[i] == el.merge_spec(s[i])->Some_0) || (0 < i && i - 1 < s2.len() && (s[i
                - 1].merge_spec(el) is Some ==> (s2[i - 1] == s[i - 1].merge_spec(el)->Some_0 || (
            i < s.len() && s[i - 1].merge_spec(el)->Some_0.merge_spec(s[i]) is Some && s2[i - 1]
                == s[i - 1].merge_spec(el)->Some_0.merge_spec(s[i])->Some_0))))
        }),
{
    lemma_lower_from_bounds(s, start, el);
    let i = spec_lower_from(s, start, el);
    let (s2, ri) = spec_search_coalesce(s, start, el);
    assert(ri == i);
    if i < s.len() && s[i] == el {
    } else if 0 < i && !s[i - 1].can_merge(el) {
        assert(s2 == s.insert(i, el));
        assert(s2[i] == el);
    } else {
        assert(s2 == spec_coalesce(s, i, el));
        if s.len() == 0 {
            assert(s2 =~= seq![el]);
            assert(s2[0] == el);
        } else if i == 0 {
            match el.merge_spec(s[0]) {
                Some(m) => {
                    assert(s2[0] == m);
                },
                None => {
                    assert(s2 =~= seq![el] + s);
                    assert(s2[0] == el);
                },
            }
        } else if i == s.len() {
            match s[i - 1].merge_spec(el) {
                Some(m) => {
                    assert(s2[i - 1] == m);
                },
                None => {
                    assert(s2[i] == el);
                },
            }
        } else {
            match s[i - 1].merge_spec(el) {
                Some(m) => match m.merge_spec(s[i]) {
                    Some(m2) => {
                        assert(s2[i - 1] == m2);
                    },
                    None => {
                        assert(s2[i - 1] == m);
                    },
                },
                None => match el.merge_spec(s[i]) {
                    Some(m) => {
                        assert(s2[i] == m);
                    },
                    None => {
                        assert(s2 == s.insert(i, el));
                        assert(s2[i] == el);
                    },
                },
            }
        }
    }
}

/// Highlighting a result with no positions returns the document's content
/// unchanged.
pub proof fn lemma_highlight_empty(c: Seq<char>, before: Seq<char>, after: Seq<char>)
    ensures
        spec_highlight(Seq::<Position>::empty(), c, before, after) == c,
{
    assert(c.skip(0) =~= c);
}

/// The score numerator of every result is non-negative.
pub proof fn lemma_score_nonneg(sr: SearchResult)
    ensures
        crate::search_result::score_key(sr).0 >= 0,
        crate::search_result::score_key(sr).1 >= 1,
{
    crate::search_result::lemma_matched_nonneg(sr.positions@);
}

/// A free-text match has an empty postings map exactly when no stored
/// document's postings hold any of the query's deduplicated tokens.
pub proof fn lemma_match_empty(x: InvertedIndex, q: Seq<char>)
    requires
        x.inv(),
    ensures
        ({
            let ts = dedup_terms(token_terms(x.query_analyzer, q));
            union_of(x.tm_view(), ts).len() == 0 <==> !exists|k: int, id: u64|
                #![auto]
                0 <= k < ts.len() && pm_has(lookup(x.tm_view(), ts[k]), id)
        }),
{
    let ts = dedup_terms(token_terms(x.query_analyzer, q));
    let u = union_of(x.tm_view(), ts);
    lemma_union_of_props(x.tm_view(), ts);
    if u.len() == 0 {
        assert forall|k: int, id: u64|
            #![auto]
            0 <= k < ts.len() implies !pm_has(lookup(x.tm_view(), ts[k]), id) by {
            if pm_has(lookup(x.tm_view(), ts[k]), id) {
                assert(pm_has(u, id));
                lemma_pm_find_props(u, id);
            }
        }
    } else {
        crate::postings::lemma_pm_entry_has(u, 0);
        let id = u[0].0;
        assert(pm_has(u, id));
        let k = choose|k: int|
            0 <= k < ts.len() && pm_has(lookup(x.tm_view(), #[trigger] ts[k]), id);
        assert(pm_has(lookup(x.tm_view(), ts[k]), id));
    }
}

} // verus!
