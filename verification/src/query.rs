//! Queries: the composable query tree and its evaluation to a postings map.

use vstd::prelude::*;
use crate::analysis::{Analyzer, stream};
use crate::chars::{lex_le, lex_lt, succ_code};
use crate::index::{InvertedIndex, dm_get, dm_has, models, tm_get, tm_has};
use crate::postings::{PostingsMap, Position, pm_get, pm_has, pm_union, pm_wf, pm_pos_inter};
use crate::search_result::{SearchResult, results_view, sorted_by_rank, sort_results};

verus! {

broadcast use vstd::std_specs::vec::axiom_vec_decreases_to_view;

/// A query organizes a search of an inverted index.  It is recursively
/// hierarchical, allowing flexibility in exactly how a search is specified.
pub enum Query {
    /// The simplest query: matches documents containing any token of the
    /// given string.
    Match(String),
    /// Requests the intersection of the documents returned for each
    /// sub-query.
    And(Vec<Query>),
    /// Requests the union of the documents returned for any sub-query.
    Or(Vec<Query>),
    /// An adjacent-position match: the tokens of the phrase must appear at
    /// consecutive token positions.  False positives may occur.
    Phrase(String),
    /// Matches all documents containing a term with the given prefix.  The
    /// argument is not tokenized: a single token must be passed.
    Prefix(String),
}

/// The terms of the analyzed stream of `s`, in stream order.
pub open spec fn token_terms(a: Analyzer, s: Seq<char>) -> Seq<Seq<char>> {
    Seq::new(stream(a, s).len(), |i: int| stream(a, s)[i].0)
}

/// The terms with duplicates dropped, keeping first occurrences in order.
pub open spec fn dedup_terms(ts: Seq<Seq<char>>) -> Seq<Seq<char>>
    decreases ts.len(),
{
    if ts.len() == 0 {
        ts
    } else {
        let d = dedup_terms(ts.drop_last());
        if d.contains(ts.last()) {
            d
        } else {
            d.push(ts.last())
        }
    }
}

/// The postings map the index records for a term; empty for an unknown term.
pub open spec fn lookup(
    iv: Seq<(Seq<char>, Seq<(u64, Seq<Position>)>)>,
    t: Seq<char>,
) -> Seq<(u64, Seq<Position>)> {
    if tm_has(iv, t) {
        tm_get(iv, t)
    } else {
        Seq::<(u64, Seq<Position>)>::empty()
    }
}

/// The ordered union of the postings of each term, folded left.
pub open spec fn union_of(
    iv: Seq<(Seq<char>, Seq<(u64, Seq<Position>)>)>,
    ts: Seq<Seq<char>>,
) -> Seq<(u64, Seq<Position>)>
    decreases ts.len(),
{
    if ts.len() == 0 {
        Seq::<(u64, Seq<Position>)>::empty()
    } else {
        pm_union(union_of(iv, ts.drop_last()), lookup(iv, ts.last()))
    }
}

/// The ordered union of a family of postings map views, folded left.
pub open spec fn union_views(subs: Seq<Seq<(u64, Seq<Position>)>>) -> Seq<(u64, Seq<Position>)>
    decreases subs.len(),
{
    if subs.len() == 0 {
        Seq::<(u64, Seq<Position>)>::empty()
    } else {
        pm_union(union_views(subs.drop_last()), subs.last())
    }
}

/// The postings map a phrase pair contributes: the positional intersection
/// of the two terms' postings, or an empty map when either term is unknown.
pub open spec fn pair_map(
    iv: Seq<(Seq<char>, Seq<(u64, Seq<Position>)>)>,
    t0: Seq<char>,
    t1: Seq<char>,
) -> Seq<(u64, Seq<Position>)> {
    if tm_has(iv, t0) && tm_has(iv, t1) {
        pm_pos_inter(tm_get(iv, t0), tm_get(iv, t1))
    } else {
        Seq::<(u64, Seq<Position>)>::empty()
    }
}

/// The positions of `id` folded across the family `0 .. k`, each later
/// member merge-coalesced into the first's list.
pub open spec fn and_list(subs: Seq<Seq<(u64, Seq<Position>)>>, id: u64, k: int) -> Seq<Position>
    recommends
        1 <= k <= subs.len(),
    decreases k,
{
    if k <= 1 {
        pm_get(subs[0], id)
    } else {
        crate::coalesce::spec_merge_coalesce(and_list(subs, id, k - 1), 0, pm_get(subs[k - 1], id)).0
    }
}

/// How an intersection result relates to the family it intersects: empty
/// family gives an empty map, a single member passes through, and otherwise
/// the result holds exactly the ids present in every member, each with all
/// the members' positions merge-coalesced together.
pub open spec fn and_rel(
    subs: Seq<Seq<(u64, Seq<Position>)>>,
    rv: Seq<(u64, Seq<Position>)>,
) -> bool {
    &&& pm_wf(rv)
    &&& (subs.len() == 0 ==> rv.len() == 0)
    &&& (subs.len() == 1 ==> rv == subs[0])
    &&& (subs.len() > 1 ==> forall|id: u64|
        pm_has(rv, id) <==> (forall|k: int| 0 <= k < subs.len() ==> pm_has(#[trigger] subs[k], id)))
    &&& (subs.len() > 1 ==> forall|id: u64|
        #[trigger] pm_has(rv, id) ==> pm_get(rv, id) == and_list(subs, id, subs.len() as int))
}

/// Whether `hi` is the exclusive upper bound of the range of terms with
/// prefix `p`: `p` with its last character replaced by its successor, or
/// unbounded when the last character is the maximum code point.
pub open spec fn prefix_bound(p: Seq<char>, hi: Option<Seq<char>>) -> bool {
    match hi {
        None => p.len() > 0 && p.last() as u32 == 0x10FFFF,
        Some(h) => p.len() > 0 && h.len() == p.len() && h.drop_last() == p.drop_last()
            && h.last() as u32 == succ_code(p.last()),
    }
}

/// Whether a term falls in the half-open scan range.
pub open spec fn in_range(t: Seq<char>, lo: Seq<char>, hi: Option<Seq<char>>) -> bool {
    lex_le(lo, t) && match hi {
        None => true,
        Some(h) => lex_lt(t, h),
    }
}

/// The ordered union of the postings of the first `k` index entries whose
/// terms fall in the scan range.
pub open spec fn range_union(
    iv: Seq<(Seq<char>, Seq<(u64, Seq<Position>)>)>,
    k: int,
    lo: Seq<char>,
    hi: Option<Seq<char>>,
) -> Seq<(u64, Seq<Position>)>
    decreases k,
{
    if k <= 0 {
        Seq::<(u64, Seq<Position>)>::empty()
    } else {
        let r = range_union(iv, k - 1, lo, hi);
        if in_range(iv[k - 1].0, lo, hi) {
            pm_union(r, iv[k - 1].1)
        } else {
            r
        }
    }
}

/// How a query's postings map relates to the index it was evaluated
/// against.
pub open spec fn query_matches(
    iv: Seq<(Seq<char>, Seq<(u64, Seq<Position>)>)>,
    qa: Analyzer,
    q: Query,
    rv: Seq<(u64, Seq<Position>)>,
) -> bool
    decreases q,
{
    match q {
        Query::Match(s) => rv == union_of(iv, dedup_terms(token_terms(qa, s@))),
        Query::Or(qs) => exists|subs: Seq<Seq<(u64, Seq<Position>)>>|
            #![auto]
            subs.len() == qs@.len() && (forall|k: int|
                0 <= k < qs@.len() ==> query_matches(iv, qa, qs@[k], subs[k])) && rv == union_views(
                subs,
            ),
        Query::And(qs) => exists|subs: Seq<Seq<(u64, Seq<Position>)>>|
            #![auto]
            subs.len() == qs@.len() && (forall|k: int|
                0 <= k < qs@.len() ==> query_matches(iv, qa, qs@[k], subs[k])) && and_rel(subs, rv),
        Query::Phrase(s) => {
            let ts = token_terms(qa, s@);
            let n = ts.len() as int;
            exists|pairs: Seq<Seq<(u64, Seq<Position>)>>|
                #![auto]
                pairs.len() == (if n >= 1 {
                    n - 1
                } else {
                    0
                }) && (forall|k: int| 0 <= k < n - 1 ==> pairs[k] == pair_map(iv, ts[k], ts[k + 1]))
                    && and_rel(pairs, rv)
        },
        Query::Prefix(s) => {
            if s@.len() == 0 {
                rv.len() == 0
            } else {
                exists|hi: Option<Seq<char>>|
                    #![auto]
                    prefix_bound(s@, hi) && rv == range_union(iv, iv.len() as int, s@, hi)
            }
        },
    }
}

/// The term views of a vector of token strings.
pub open spec fn terms_view(v: Seq<String>) -> Seq<Seq<char>> {
    Seq::new(v.len(), |i: int| v[i]@)
}

/// The views of a family of postings maps.
pub open spec fn map_views(ms: Seq<PostingsMap>) -> Seq<Seq<(u64, Seq<Position>)>> {
    Seq::new(ms.len(), |i: int| ms[i]@)
}

/// `spec_and_positions` over stored maps equals `and_list` over their views.
proof fn lemma_and_list_lift(ms: Seq<PostingsMap>, vs: Seq<Seq<(u64, Seq<Position>)>>, id: u64, k: int)
    requires
        vs.len() == ms.len(),
        forall|i: int| 0 <= i < ms.len() ==> vs[i] == (#[trigger] ms[i])@,
        1 <= k <= ms.len(),
    ensures
        crate::postings::spec_and_positions(ms, id, k) == and_list(vs, id, k),
    decreases k,
{
    if k > 1 {
        lemma_and_list_lift(ms, vs, id, k - 1);
    }
}

/// Drops duplicate tokens, keeping the first occurrence of each.
fn dedup_tokens(tokens: Vec<String>) -> (r: Vec<String>)
    ensures
        terms_view(r@) == dedup_terms(terms_view(tokens@)),
{
    let mut r: Vec<String> = Vec::new();
    let mut k: usize = 0;
    proof {
        assert(terms_view(tokens@).take(0) =~= Seq::<Seq<char>>::empty());
        assert(terms_view(r@) =~= dedup_terms(terms_view(tokens@).take(0)));
    }
    while k < tokens.len()
        invariant
            k <= tokens@.len(),
            terms_view(r@) == dedup_terms(terms_view(tokens@).take(k as int)),
        decreases tokens@.len() - k,
    {
        let t = &tokens[k];
        let mut found: bool = false;
        let mut i: usize = 0;
        while i < r.len()
            invariant
                i <= r@.len(),
                found ==> terms_view(r@).contains(t@),
                !found ==> forall|j: int| 0 <= j < i ==> (#[trigger] r@[j])@ != t@,
            decreases r@.len() - i,
        {
            if !found && r[i] == *t {
                found = true;
                proof {
                    assert(terms_view(r@)[i as int] == t@);
                }
            }
            i = i + 1;
        }
        proof {
            if !found {
                assert(!terms_view(r@).contains(t@)) by {
                    if terms_view(r@).contains(t@) {
                        let j = choose|j: int|
                            0 <= j < terms_view(r@).len() && terms_view(r@)[j] == t@;
                        assert(r@[j]@ == t@);
                    }
                }
            }
        }
        let ghost pre = r@;
        if !found {
            r.push(t.clone());
        }
        proof {
            let full = terms_view(tokens@);
            assert(full.take(k + 1).drop_last() =~= full.take(k as int));
            assert(full.take(k + 1).last() == full[k as int]);
            assert(full[k as int] == tokens@[k as int]@);
            if !found {
                assert(terms_view(r@) =~= terms_view(pre).push(t@));
            }
            assert(terms_view(r@) =~= dedup_terms(full.take(k + 1)));
        }
        k = k + 1;
    }
    proof {
        assert(terms_view(tokens@).take(tokens@.len() as int) =~= terms_view(tokens@));
    }
    r
}

impl InvertedIndex {
    /// The ordered union of the postings recorded for each given term, with
    /// positions of documents shared between terms merge-coalesced.
    fn union_terms(&self, tokens: &Vec<String>) -> (r: PostingsMap)
        requires
            self.inv(),
        ensures
            r@ == union_of(self.tm_view(), terms_view(tokens@)),
            r.wf(),
    {
        let ghost iv = self.tm_view();
        let mut r = PostingsMap::new();
        let mut k: usize = 0;
        proof {
            assert(terms_view(tokens@).take(0) =~= Seq::<Seq<char>>::empty());
        }
        while k < tokens.len()
            invariant
                self.inv(),
                iv == self.tm_view(),
                k <= tokens@.len(),
                r@ == union_of(iv, terms_view(tokens@).take(k as int)),
                r.wf(),
            decreases tokens@.len() - k,
        {
            let t = &tokens[k];
            let ghost pre = r@;
            let f = self.find_term(t);
            proof {
                crate::index::lemma_tm_find_props(iv, t@);
                let full = terms_view(tokens@);
                assert(full.take(k + 1).drop_last() =~= full.take(k as int));
                assert(full.take(k + 1).last() == full[k as int]);
                assert(full[k as int] == tokens@[k as int]@);
            }
            if f < self.index.len() {
                proof {
                    assert(iv[f as int].1 == tm_get(iv, t@));
                    assert(pm_wf(tm_get(iv, t@)));
                    assert(self.index@[f as int].1@ == iv[f as int].1);
                }
                r.merge_from(&self.index[f].1);
                proof {
                    crate::postings::lemma_pm_union_props(pre, tm_get(iv, t@));
                    assert(lookup(iv, t@) == tm_get(iv, t@));
                    assert(r@ == union_of(iv, terms_view(tokens@).take(k + 1)));
                }
            } else {
                proof {
                    assert(!tm_has(iv, t@));
                    assert(lookup(iv, t@) =~= Seq::<(u64, Seq<Position>)>::empty());
                    assert(pm_union(pre, lookup(iv, t@)) == pre) by {
                        if pre.len() != 0 {
                            assert(lookup(iv, t@).len() == 0);
                        }
                    }
                    assert(r@ == union_of(iv, terms_view(tokens@).take(k + 1)));
                }
            }
            k = k + 1;
        }
        proof {
            assert(terms_view(tokens@).take(tokens@.len() as int) =~= terms_view(tokens@));
        }
        r
    }

    /// The postings map of a free-text match: the query is tokenized with
    /// the query analyzer, duplicate tokens are dropped keeping first
    /// occurrences, and the postings of the surviving terms are unioned.
    fn postings(&self, q: &str) -> (r: PostingsMap)
        requires
            self.inv(),
        ensures
            r@ == union_of(self.tm_view(), dedup_terms(token_terms(self.query_analyzer, q@))),
            r.wf(),
    {
        let qa = self.query_analyzer;
        let tokens = qa.analyze_tokens(q);
        proof {
            assert(terms_view(tokens@) =~= token_terms(qa, q@));
        }
        let unique = dedup_tokens(tokens);
        self.union_terms(&unique)
    }

    /// The postings map of a phrase query: each adjacent token pair is
    /// intersected positionally, and the pair maps are intersected by
    /// document id with their positions merge-coalesced.  A phrase of fewer
    /// than two tokens yields an empty map.
    fn phrase(&self, p: &str) -> (r: PostingsMap)
        requires
            self.inv(),
        ensures
            ({
                let ts = token_terms(self.query_analyzer, p@);
                let n = ts.len() as int;
                exists|pairs: Seq<Seq<(u64, Seq<Position>)>>|
                    #![auto]
                    pairs.len() == (if n >= 1 {
                        n - 1
                    } else {
                        0
                    }) && (forall|k: int|
                        0 <= k < n - 1 ==> pairs[k] == pair_map(self.tm_view(), ts[k], ts[k + 1]))
                        && and_rel(pairs, r@)
            }),
            r.wf(),
    {
        let qa = self.query_analyzer;
        let terms = qa.analyze_tokens(p);
        let ghost iv = self.tm_view();
        let ghost ts = token_terms(qa, p@);
        proof {
            assert(terms_view(terms@) =~= ts);
        }
        let mut pairs: Vec<PostingsMap> = Vec::new();
        if terms.len() >= 2 {
            let mut k: usize = 0;
            while k < terms.len() - 1
                invariant
                    self.inv(),
                    iv == self.tm_view(),
                    terms_view(terms@) == ts,
                    k + 1 <= terms@.len(),
                    terms@.len() >= 2,
                    pairs@.len() == k,
                    forall|i: int|
                        0 <= i < k ==> (#[trigger] pairs@[i])@ == pair_map(iv, ts[i], ts[i + 1])
                            && pairs@[i].wf(),
                decreases terms@.len() - k,
            {
                let f0 = self.find_term(&terms[k]);
                let f1 = self.find_term(&terms[k + 1]);
                proof {
                    assert(terms@[k as int]@ == ts[k as int]);
                    assert(terms@[k as int + 1]@ == ts[k as int + 1]);
                }
                let m = if f0 < self.index.len() && f1 < self.index.len() {
                    proof {
                        assert(iv[f0 as int].1 == tm_get(iv, ts[k as int]));
                        assert(iv[f1 as int].1 == tm_get(iv, ts[k as int + 1]));
                        assert(pm_wf(tm_get(iv, ts[k as int])));
                        assert(pm_wf(tm_get(iv, ts[k as int + 1])));
                        assert(self.index@[f0 as int].1@ == iv[f0 as int].1);
                        assert(self.index@[f1 as int].1@ == iv[f1 as int].1);
                    }
                    self.index[f0].1.intersect_positionally(&self.index[f1].1)
                } else {
                    PostingsMap::new()
                };
                proof {
                    assert(m@ == pair_map(iv, ts[k as int], ts[k as int + 1]));
                }
                pairs.push(m);
                k = k + 1;
            }
        }
        let r = crate::postings::intersect_postings(&pairs);
        proof {
            let n = ts.len() as int;
            let vs = map_views(pairs@);
            assert(vs.len() == (if n >= 1 { n - 1 } else { 0 }));
            assert forall|i: int| 0 <= i < n - 1 implies vs[i] == pair_map(iv, ts[i], ts[i + 1]) by {
                assert(vs[i] == pairs@[i]@);
            }
            assert(and_rel(vs, r@)) by {
                if pairs@.len() == 1 {
                    assert(r@ == pairs@[0]@);
                }
                if pairs@.len() > 1 {
                    assert forall|id: u64| pm_has(r@, id) <==> (forall|k: int|
                        0 <= k < vs.len() ==> pm_has(#[trigger] vs[k], id)) by {
                        assert(pm_has(r@, id) <==> crate::postings::all_have(pairs@, id));
                        if crate::postings::all_have(pairs@, id) {
                            assert forall|k: int| 0 <= k < vs.len() implies pm_has(
                                #[trigger] vs[k],
                                id,
                            ) by {
                                assert(pm_has(pairs@[k]@, id));
                            }
                        }
                        if forall|k: int| 0 <= k < vs.len() ==> pm_has(#[trigger] vs[k], id) {
                            assert forall|k: int| 0 <= k < pairs@.len() implies pm_has(
                                (#[trigger] pairs@[k])@,
                                id,
                            ) by {
                                assert(pm_has(vs[k], id));
                            }
                        }
                    }
                    assert forall|id: u64| #[trigger] pm_has(r@, id) implies pm_get(r@, id)
                        == and_list(vs, id, vs.len() as int) by {
                        lemma_and_list_lift(pairs@, vs, id, vs.len() as int);
                    }
                }
            }
        }
        r
    }
}

impl InvertedIndex {
    /// The postings map of a prefix query: the union of the postings of
    /// every term from `p` (inclusive) up to `p` with its last character
    /// replaced by its successor (exclusive), or unbounded above when the
    /// last character is the maximum code point.  An empty prefix yields an
    /// empty map.  The prefix is not tokenized.
    fn prefix(&self, p: &str) -> (r: PostingsMap)
        requires
            self.inv(),
        ensures
            p@.len() == 0 ==> r@.len() == 0,
            p@.len() > 0 ==> exists|hi: Option<Seq<char>>|
                #![auto]
                prefix_bound(p@, hi) && r@ == range_union(
                    self.tm_view(),
                    self.tm_view().len() as int,
                    p@,
                    hi,
                ),
            r.wf(),
    {
        let ghost iv = self.tm_view();
        let cs = crate::chars::chars_vec(p);
        let n = cs.len();
        if n == 0 {
            return PostingsMap::new();
        }
        let last = cs[n - 1];
        let upper: Option<String> = match crate::chars::successor(last) {
            Some(c2) => {
                let mut h = String::new();
                let mut i: usize = 0;
                while i < n - 1
                    invariant
                        n >= 1,
                        n == cs@.len(),
                        cs@ == p@,
                        i <= n - 1,
                        h@ =~= p@.take(i as int),
                    decreases n - 1 - i,
                {
                    crate::chars::push_char(&mut h, cs[i]);
                    proof {
                        assert(p@.take(i + 1) =~= p@.take(i as int).push(p@[i as int]));
                    }
                    i = i + 1;
                }
                crate::chars::push_char(&mut h, c2);
                proof {
                    assert(p@.take(n - 1) =~= p@.drop_last());
                    assert(h@ =~= p@.drop_last().push(c2));
                }
                Some(h)
            },
            None => None,
        };
        let ghost hi: Option<Seq<char>> = match &upper {
            Some(h) => Some(h@),
            None => None,
        };
        proof {
            assert(p@.last() == cs@[n - 1]);
            assert(prefix_bound(p@, hi)) by {
                match hi {
                    None => {
                        assert(p@.last() as u32 == 0x10FFFF);
                    },
                    Some(h) => {
                        assert(h.len() == p@.len());
                        assert(h.drop_last() =~= p@.drop_last());
                        assert(h.last() as u32 == succ_code(p@.last()));
                    },
                }
            }
        }
        let mut r = PostingsMap::new();
        let mut k: usize = 0;
        while k < self.index.len()
            invariant
                self.inv(),
                iv == self.tm_view(),
                k <= iv.len(),
                iv.len() == self.index@.len(),
                r@ == range_union(iv, k as int, p@, hi),
                r.wf(),
                match (hi, upper) {
                    (Some(hs), Some(hx)) => hs == hx@,
                    (None, None) => true,
                    _ => false,
                },
                cs@ == p@,
                n == p@.len(),
                n >= 1,
            decreases iv.len() - k,
        {
            let key = &self.index[k].0;
            proof {
                assert(iv[k as int].0 == key@);
                assert(iv[k as int].1 == self.index@[k as int].1@);
            }
            let ge_lo = crate::chars::str_le(p, key.as_str());
            let below_hi: bool = match &upper {
                Some(h) => {
                    let le1 = crate::chars::str_le(key.as_str(), h.as_str());
                    let le2 = crate::chars::str_le(h.as_str(), key.as_str());
                    proof {
                        if le1 && le2 {
                            crate::chars::lemma_lex_le_antisym(key@, h@);
                        }
                        if !le1 {
                            crate::chars::lemma_lex_le_total(key@, h@);
                        }
                    }
                    le1 && !le2
                },
                None => true,
            };
            proof {
                assert((ge_lo && below_hi) == in_range(iv[k as int].0, p@, hi));
            }
            if ge_lo && below_hi {
                let ghost pre = r@;
                proof {
                    assert(pm_wf(iv[k as int].1));
                }
                r.merge_from(&self.index[k].1);
                proof {
                    crate::postings::lemma_pm_union_props(pre, iv[k as int].1);
                }
            }
            k = k + 1;
        }
        r
    }

    /// Evaluates the query tree to a postings map.
    pub(crate) fn query_rec(&self, q: &Query) -> (r: PostingsMap)
        requires
            self.inv(),
        ensures
            query_matches(self.tm_view(), self.query_analyzer, *q, r@),
            r.wf(),
        decreases *q,
    {
        match q {
            Query::Match(s) => self.postings(s.as_str()),
            Query::Phrase(s) => self.phrase(s.as_str()),
            Query::Prefix(s) => {
                let r = self.prefix(s.as_str());
                proof {
                    if s@.len() == 0 {
                        assert(query_matches(self.tm_view(), self.query_analyzer, *q, r@));
                    }
                }
                r
            },
            Query::Or(qs) => {
                let ghost iv = self.tm_view();
                let ghost qa = self.query_analyzer;
                let mut r = PostingsMap::new();
                let ghost subs: Seq<Seq<(u64, Seq<Position>)>> = Seq::empty();
                let mut k: usize = 0;
                let n = qs.len();
                let mut subs_acc: Ghost<Seq<Seq<(u64, Seq<Position>)>>> = Ghost(subs);
                while k < n
                    invariant
                        self.inv(),
                        iv == self.tm_view(),
                        qa == self.query_analyzer,
                        n == qs@.len(),
                        k <= n,
                        subs_acc@.len() == k,
                        *q is Or,
                        q->Or_0 == *qs,
                        forall|i: int| 0 <= i < k ==> query_matches(iv, qa, qs@[i], subs_acc@[i]),
                        r@ == union_views(subs_acc@),
                        r.wf(),
                    decreases n - k,
                {
                    proof {
                        assert(decreases_to!(*q => q->Or_0));
                        assert(q->Or_0 == *qs);
                        assert(decreases_to!(*qs => qs@));
                    }
                    let sub = self.query_rec(&qs[k]);
                    let ghost pre = subs_acc@;
                    proof {
                        subs_acc@ = pre.push(sub@);
                        assert(subs_acc@.drop_last() =~= pre);
                        crate::postings::lemma_pm_union_props(r@, sub@);
                    }
                    r.merge_from(&sub);
                    k = k + 1;
                }
                proof {
                    assert(query_matches(iv, qa, *q, r@)) by {
                        assert(subs_acc@.len() == qs@.len() && (forall|i: int|
                            0 <= i < qs@.len() ==> query_matches(iv, qa, qs@[i], subs_acc@[i]))
                            && r@ == union_views(subs_acc@));
                    }
                }
                r
            },
            Query::And(qs) => {
                let ghost iv = self.tm_view();
                let ghost qa = self.query_analyzer;
                let mut maps: Vec<PostingsMap> = Vec::new();
                let mut k: usize = 0;
                let n = qs.len();
                while k < n
                    invariant
                        self.inv(),
                        iv == self.tm_view(),
                        qa == self.query_analyzer,
                        n == qs@.len(),
                        k <= n,
                        maps@.len() == k,
                        *q is And,
                        q->And_0 == *qs,
                        forall|i: int|
                            0 <= i < k ==> query_matches(iv, qa, qs@[i], (#[trigger] maps@[i])@)
                                && maps@[i].wf(),
                    decreases n - k,
                {
                    proof {
                        assert(decreases_to!(*q => q->And_0));
                        assert(q->And_0 == *qs);
                        assert(decreases_to!(*qs => qs@));
                    }
                    let sub = self.query_rec(&qs[k]);
                    maps.push(sub);
                    k = k + 1;
                }
                let r = crate::postings::intersect_postings(&maps);
                proof {
                    let vs = map_views(maps@);
                    assert forall|i: int| 0 <= i < qs@.len() implies query_matches(
                        iv,
                        qa,
                        qs@[i],
                        vs[i],
                    ) by {
                        assert(vs[i] == maps@[i]@);
                    }
                    assert(and_rel(vs, r@)) by {
                        if maps@.len() == 1 {
                            assert(r@ == maps@[0]@);
                        }
                        if maps@.len() > 1 {
                            assert forall|id: u64| pm_has(r@, id) <==> (forall|w: int|
                                0 <= w < vs.len() ==> pm_has(#[trigger] vs[w], id)) by {
                                assert(pm_has(r@, id) <==> crate::postings::all_have(maps@, id));
                                if crate::postings::all_have(maps@, id) {
                                    assert forall|w: int| 0 <= w < vs.len() implies pm_has(
                                        #[trigger] vs[w],
                                        id,
                                    ) by {
                                        assert(pm_has(maps@[w]@, id));
                                    }
                                }
                                if forall|w: int| 0 <= w < vs.len() ==> pm_has(
                                    #[trigger] vs[w],
                                    id,
                                ) {
                                    assert forall|w: int| 0 <= w < maps@.len() implies pm_has(
                                        (#[trigger] maps@[w])@,
                                        id,
                                    ) by {
                                        assert(pm_has(vs[w], id));
                                    }
                                }
                            }
                            assert forall|id: u64| #[trigger] pm_has(r@, id) implies pm_get(r@, id)
                                == and_list(vs, id, vs.len() as int) by {
                                lemma_and_list_lift(maps@, vs, id, vs.len() as int);
                            }
                        }
                    }
                    assert(query_matches(iv, qa, *q, r@)) by {
                        assert(vs.len() == qs@.len() && (forall|i: int|
                            0 <= i < qs@.len() ==> query_matches(iv, qa, qs@[i], vs[i])) && and_rel(
                            vs,
                            r@,
                        ));
                    }
                }
                r
            },
        }
    }
}

/// The union of term postings is well-formed and holds exactly the
/// documents some term's postings hold.
pub proof fn lemma_union_of_props(
    iv: Seq<(Seq<char>, Seq<(u64, Seq<Position>)>)>,
    ts: Seq<Seq<char>>,
)
    requires
        forall|k: int| 0 <= k < iv.len() ==> pm_wf((#[trigger] iv[k]).1),
    ensures
        pm_wf(union_of(iv, ts)),
        forall|id: u64|
            pm_has(#[trigger] union_of(iv, ts), id) <==> exists|k: int|
                0 <= k < ts.len() && pm_has(lookup(iv, #[trigger] ts[k]), id),
    decreases ts.len(),
{
    if ts.len() == 0 {
        assert forall|id: u64| !pm_has(union_of(iv, ts), id) by {
            crate::postings::lemma_pm_find_props(union_of(iv, ts), id);
        }
    } else {
        lemma_union_of_props(iv, ts.drop_last());
        let lk = lookup(iv, ts.last());
        assert(pm_wf(lk)) by {
            if tm_has(iv, ts.last()) {
                crate::index::lemma_tm_find_props(iv, ts.last());
            }
        }
        crate::postings::lemma_pm_union_props(union_of(iv, ts.drop_last()), lk);
        assert forall|id: u64|
            pm_has(#[trigger] union_of(iv, ts), id) <==> exists|k: int|
                0 <= k < ts.len() && pm_has(lookup(iv, #[trigger] ts[k]), id) by {
            if pm_has(union_of(iv, ts), id) {
                if pm_has(union_of(iv, ts.drop_last()), id) {
                    let k = choose|k: int|
                        0 <= k < ts.drop_last().len() && pm_has(
                            lookup(iv, #[trigger] ts.drop_last()[k]),
                            id,
                        );
                    assert(ts.drop_last()[k] == ts[k]);
                    assert(pm_has(lookup(iv, ts[k]), id));
                } else {
                    assert(pm_has(lk, id));
                    assert(ts[ts.len() - 1] == ts.last());
                }
            }
            if exists|k: int| 0 <= k < ts.len() && pm_has(lookup(iv, #[trigger] ts[k]), id) {
                let k = choose|k: int|
                    0 <= k < ts.len() && pm_has(lookup(iv, #[trigger] ts[k]), id);
                if k < ts.len() - 1 {
                    assert(ts.drop_last()[k] == ts[k]);
                    assert(pm_has(union_of(iv, ts.drop_last()), id));
                } else {
                    assert(pm_has(lk, id));
                }
            }
        }
    }
}

/// The union of sub-query results is well-formed and holds exactly the
/// documents some member holds.
pub proof fn lemma_union_views_props(subs: Seq<Seq<(u64, Seq<Position>)>>)
    requires
        forall|k: int| 0 <= k < subs.len() ==> pm_wf(#[trigger] subs[k]),
    ensures
        pm_wf(union_views(subs)),
        forall|id: u64|
            pm_has(#[trigger] union_views(subs), id) <==> exists|k: int|
                0 <= k < subs.len() && pm_has(#[trigger] subs[k], id),
    decreases subs.len(),
{
    if subs.len() == 0 {
        assert forall|id: u64| !pm_has(union_views(subs), id) by {
            crate::postings::lemma_pm_find_props(union_views(subs), id);
        }
    } else {
        lemma_union_views_props(subs.drop_last());
        crate::postings::lemma_pm_union_props(union_views(subs.drop_last()), subs.last());
        assert forall|id: u64|
            pm_has(#[trigger] union_views(subs), id) <==> exists|k: int|
                0 <= k < subs.len() && pm_has(#[trigger] subs[k], id) by {
            if pm_has(union_views(subs), id) {
                if pm_has(union_views(subs.drop_last()), id) {
                    let k = choose|k: int|
                        0 <= k < subs.drop_last().len() && pm_has(
                            #[trigger] subs.drop_last()[k],
                            id,
                        );
                    assert(subs.drop_last()[k] == subs[k]);
                    assert(pm_has(subs[k], id));
                } else {
                    assert(subs[subs.len() - 1] == subs.last());
                    assert(pm_has(subs[subs.len() - 1], id));
                }
            }
            if exists|k: int| 0 <= k < subs.len() && pm_has(#[trigger] subs[k], id) {
                let k = choose|k: int| 0 <= k < subs.len() && pm_has(#[trigger] subs[k], id);
                if k < subs.len() - 1 {
                    assert(subs.drop_last()[k] == subs[k]);
                    assert(pm_has(union_views(subs.drop_last()), id));
                } else {
                    assert(pm_has(subs.last(), id));
                }
            }
        }
    }
}

/// The range union is well-formed and holds exactly the documents of some
/// in-range entry.
pub proof fn lemma_range_union_props(
    iv: Seq<(Seq<char>, Seq<(u64, Seq<Position>)>)>,
    k: int,
    lo: Seq<char>,
    hi: Option<Seq<char>>,
)
    requires
        forall|w: int| 0 <= w < iv.len() ==> pm_wf((#[trigger] iv[w]).1),
        k <= iv.len(),
    ensures
        pm_wf(range_union(iv, k, lo, hi)),
        forall|id: u64|
            pm_has(#[trigger] range_union(iv, k, lo, hi), id) <==> exists|w: int|
                0 <= w < k && in_range((#[trigger] iv[w]).0, lo, hi) && pm_has(iv[w].1, id),
    decreases k,
{
    if k <= 0 {
        assert forall|id: u64| !pm_has(range_union(iv, k, lo, hi), id) by {
            crate::postings::lemma_pm_find_props(range_union(iv, k, lo, hi), id);
        }
    } else {
        lemma_range_union_props(iv, k - 1, lo, hi);
        if in_range(iv[k - 1].0, lo, hi) {
            crate::postings::lemma_pm_union_props(range_union(iv, k - 1, lo, hi), iv[k - 1].1);
        }
        assert forall|id: u64|
            pm_has(#[trigger] range_union(iv, k, lo, hi), id) <==> exists|w: int|
                0 <= w < k && in_range((#[trigger] iv[w]).0, lo, hi) && pm_has(iv[w].1, id) by {
            if pm_has(range_union(iv, k, lo, hi), id) {
                if pm_has(range_union(iv, k - 1, lo, hi), id) {
                    let w = choose|w: int|
                        0 <= w < k - 1 && in_range((#[trigger] iv[w]).0, lo, hi) && pm_has(
                            iv[w].1,
                            id,
                        );
                    assert(in_range(iv[w].0, lo, hi) && pm_has(iv[w].1, id));
                } else {
                    assert(in_range(iv[k - 1].0, lo, hi) && pm_has(iv[k - 1].1, id));
                }
            }
            if exists|w: int|
                0 <= w < k && in_range((#[trigger] iv[w]).0, lo, hi) && pm_has(iv[w].1, id) {
                let w = choose|w: int|
                    0 <= w < k && in_range((#[trigger] iv[w]).0, lo, hi) && pm_has(iv[w].1, id);
                if w < k - 1 {
                    assert(pm_has(range_union(iv, k - 1, lo, hi), id));
                }
            }
        }
    }
}

/// Every document a query result mentions is stored: the postings the
/// evaluator returns draw their ids from the index, and the index draws
/// them from the document store.
pub proof fn lemma_query_stored(
    iv: Seq<(Seq<char>, Seq<(u64, Seq<Position>)>)>,
    dv: Seq<(u64, Seq<char>)>,
    da: Analyzer,
    qa: Analyzer,
    q: Query,
    rv: Seq<(u64, Seq<Position>)>,
)
    requires
        models(da, iv, dv),
        query_matches(iv, qa, q, rv),
    ensures
        forall|id: u64| pm_has(rv, id) ==> dm_has(dv, id),
    decreases q,
{
    broadcast use vstd::std_specs::vec::axiom_vec_decreases_to_view;

    match q {
        Query::Match(s) => {
            lemma_union_of_props(iv, dedup_terms(token_terms(qa, s@)));
            assert forall|id: u64| pm_has(rv, id) implies dm_has(dv, id) by {
                let ts = dedup_terms(token_terms(qa, s@));
                let k = choose|k: int| 0 <= k < ts.len() && pm_has(lookup(iv, #[trigger] ts[k]), id);
                assert(tm_has(iv, ts[k]));
                assert(pm_has(tm_get(iv, ts[k]), id));
            }
        },
        Query::Prefix(s) => {
            if s@.len() == 0 {
                assert forall|id: u64| pm_has(rv, id) implies dm_has(dv, id) by {
                    crate::postings::lemma_pm_find_props(rv, id);
                }
            } else {
                let hi = choose|hi: Option<Seq<char>>|
                    #![auto]
                    prefix_bound(s@, hi) && rv == range_union(iv, iv.len() as int, s@, hi);
                lemma_range_union_props(iv, iv.len() as int, s@, hi);
                assert forall|id: u64| pm_has(rv, id) implies dm_has(dv, id) by {
                    let w = choose|w: int|
                        0 <= w < iv.len() && in_range((#[trigger] iv[w]).0, s@, hi) && pm_has(
                            iv[w].1,
                            id,
                        );
                    crate::index::lemma_tm_at_find(iv, w);
                    assert(tm_has(iv, iv[w].0));
                    assert(tm_get(iv, iv[w].0) == iv[w].1);
                    assert(pm_has(tm_get(iv, iv[w].0), id));
                }
            }
        },
        Query::Or(qs) => {
            let subs = choose|subs: Seq<Seq<(u64, Seq<Position>)>>|
                #![auto]
                subs.len() == qs@.len() && (forall|k: int|
                    0 <= k < qs@.len() ==> query_matches(iv, qa, qs@[k], subs[k])) && rv
                    == union_views(subs);
            assert forall|k: int| 0 <= k < subs.len() implies pm_wf(#[trigger] subs[k]) by {
                assert(decreases_to!(q => q->Or_0));
                assert(decreases_to!(q->Or_0 => qs@));
                lemma_query_matches_wf(iv, qa, qs@[k], subs[k]);
            }
            lemma_union_views_props(subs);
            assert forall|id: u64| pm_has(rv, id) implies dm_has(dv, id) by {
                let k = choose|k: int| 0 <= k < subs.len() && pm_has(#[trigger] subs[k], id);
                assert(decreases_to!(q => q->Or_0));
                lemma_query_stored(iv, dv, da, qa, qs@[k], subs[k]);
            }
        },
        Query::And(qs) => {
            let subs = choose|subs: Seq<Seq<(u64, Seq<Position>)>>|
                #![auto]
                subs.len() == qs@.len() && (forall|k: int|
                    0 <= k < qs@.len() ==> query_matches(iv, qa, qs@[k], subs[k])) && and_rel(
                    subs,
                    rv,
                );
            assert forall|id: u64| pm_has(rv, id) implies dm_has(dv, id) by {
                if subs.len() == 0 {
                    assert(rv.len() == 0);
                    crate::postings::lemma_pm_find_props(rv, id);
                } else {
                    assert(pm_has(subs[0], id)) by {
                        if subs.len() == 1 {
                            assert(rv == subs[0]);
                        }
                    }
                    assert(decreases_to!(q => q->And_0));
                    lemma_query_stored(iv, dv, da, qa, qs@[0], subs[0]);
                }
            }
        },
        Query::Phrase(s) => {
            let ts = token_terms(qa, s@);
            let n = ts.len() as int;
            let pairs = choose|pairs: Seq<Seq<(u64, Seq<Position>)>>|
                #![auto]
                pairs.len() == (if n >= 1 {
                    n - 1
                } else {
                    0
                }) && (forall|k: int| 0 <= k < n - 1 ==> pairs[k] == pair_map(iv, ts[k], ts[k + 1]))
                    && and_rel(pairs, rv);
            assert forall|id: u64| pm_has(rv, id) implies dm_has(dv, id) by {
                if pairs.len() == 0 {
                    assert(rv.len() == 0);
                    crate::postings::lemma_pm_find_props(rv, id);
                } else {
                    assert(pm_has(pairs[0], id)) by {
                        if pairs.len() == 1 {
                            assert(rv == pairs[0]);
                        }
                    }
                    assert(pairs[0] == pair_map(iv, ts[0], ts[1]));
                    if tm_has(iv, ts[0]) && tm_has(iv, ts[1]) {
                        assert(pm_wf(tm_get(iv, ts[0]))) by {
                            crate::index::lemma_tm_find_props(iv, ts[0]);
                        }
                        assert(pm_wf(tm_get(iv, ts[1]))) by {
                            crate::index::lemma_tm_find_props(iv, ts[1]);
                        }
                        crate::postings::lemma_pm_pos_inter_props(
                            tm_get(iv, ts[0]),
                            tm_get(iv, ts[1]),
                        );
                        assert(pm_has(tm_get(iv, ts[0]), id));
                    } else {
                        crate::postings::lemma_pm_find_props(pairs[0], id);
                    }
                }
            }
        },
    }
}

/// Every query result is a well-formed postings map.
pub proof fn lemma_query_matches_wf(
    iv: Seq<(Seq<char>, Seq<(u64, Seq<Position>)>)>,
    qa: Analyzer,
    q: Query,
    rv: Seq<(u64, Seq<Position>)>,
)
    requires
        forall|k: int| 0 <= k < iv.len() ==> pm_wf((#[trigger] iv[k]).1),
        query_matches(iv, qa, q, rv),
    ensures
        pm_wf(rv),
    decreases q,
{
    broadcast use vstd::std_specs::vec::axiom_vec_decreases_to_view;

    match q {
        Query::Match(s) => {
            lemma_union_of_props(iv, dedup_terms(token_terms(qa, s@)));
        },
        Query::Prefix(s) => {
            if s@.len() == 0 {
            } else {
                let hi = choose|hi: Option<Seq<char>>|
                    #![auto]
                    prefix_bound(s@, hi) && rv == range_union(iv, iv.len() as int, s@, hi);
                lemma_range_union_props(iv, iv.len() as int, s@, hi);
            }
        },
        Query::Or(qs) => {
            let subs = choose|subs: Seq<Seq<(u64, Seq<Position>)>>|
                #![auto]
                subs.len() == qs@.len() && (forall|k: int|
                    0 <= k < qs@.len() ==> query_matches(iv, qa, qs@[k], subs[k])) && rv
                    == union_views(subs);
            assert forall|k: int| 0 <= k < subs.len() implies pm_wf(#[trigger] subs[k]) by {
                assert(decreases_to!(q => q->Or_0));
                lemma_query_matches_wf(iv, qa, qs@[k], subs[k]);
            }
            lemma_union_views_props(subs);
        },
        Query::And(qs) => {
        },
        Query::Phrase(s) => {
        },
    }
}

/// The view of the results owed for a postings map: each entry's document
/// with its positions.
pub open spec fn owed_results(
    dv: Seq<(u64, Seq<char>)>,
    pmv: Seq<(u64, Seq<Position>)>,
) -> Seq<(u64, Seq<char>, Seq<Position>)> {
    Seq::new(pmv.len(), |k: int| (pmv[k].0, dm_get(dv, pmv[k].0), pmv[k].1))
}

impl InvertedIndex {
    /// Storage index of document `id`, or the store's length when absent.
    fn find_doc(&self, id: u64) -> (r: usize)
        ensures
            r as int == crate::index::dm_find(self.dm_view(), id),
            r <= self.dm_view().len(),
    {
        proof {
            crate::index::lemma_dm_find_props(self.dm_view(), id);
        }
        let mut i: usize = 0;
        while i < self.docs.len()
            invariant
                i <= self.dm_view().len(),
                self.dm_view().len() == self.docs@.len(),
                forall|j: int| 0 <= j < i ==> (#[trigger] self.dm_view()[j]).0 != id,
            decreases self.docs@.len() - i,
        {
            if self.docs[i].0 == id {
                proof {
                    assert(self.dm_view()[i as int].0 == id);
                    crate::index::lemma_dm_find_unique(self.dm_view(), id, i as int);
                }
                return i;
            }
            proof {
                assert(self.dm_view()[i as int].0 == self.docs@[i as int].0);
            }
            i = i + 1;
        }
        proof {
            if crate::index::dm_find(self.dm_view(), id) < self.dm_view().len() {
                assert(self.dm_view()[crate::index::dm_find(self.dm_view(), id)].0 == id);
            }
        }
        i
    }

    /// Builds the ranked result list for a postings map: one result per
    /// recorded document, carrying that document and the map's positions,
    /// sorted by descending score.
    fn compute_results(&self, postings: &PostingsMap) -> (r: Vec<SearchResult>)
        requires
            self.inv(),
            forall|k: int|
                0 <= k < postings@.len() ==> dm_has(self.dm_view(), (#[trigger] postings@[k]).0),
        ensures
            sorted_by_rank(r@),
            results_view(r@).to_multiset() == owed_results(self.dm_view(), postings@).to_multiset(),
            r@.len() == postings@.len(),
    {
        let ghost dv = self.dm_view();
        let mut rs: Vec<SearchResult> = Vec::new();
        let mut k: usize = 0;
        while k < postings.len()
            invariant
                self.inv(),
                dv == self.dm_view(),
                forall|w: int|
                    0 <= w < postings@.len() ==> dm_has(dv, (#[trigger] postings@[w]).0),
                k <= postings@.len(),
                results_view(rs@) =~= owed_results(dv, postings@).take(k as int),
            decreases postings@.len() - k,
        {
            let id = postings.id_at(k);
            let w = self.find_doc(id);
            proof {
                crate::postings::lemma_pm_entry_has(postings@, k as int);
                crate::index::lemma_dm_find_props(dv, id);
                assert(dm_has(dv, id));
                assert(dv[w as int].1 == self.docs@[w as int].1.content@);
                assert(self.docs@[w as int].1.id == self.docs@[w as int].0);
            }
            let doc = self.docs[w].1.duplicate();
            let positions = crate::postings::copy_positions(postings.list_at(k));
            let ghost pre = rs@;
            rs.push(SearchResult { doc, positions });
            proof {
                crate::search_result::lemma_results_view_push(
                    pre,
                    rs@[pre.len() as int],
                );
                assert(results_view(rs@) =~= owed_results(dv, postings@).take(k + 1)) by {
                    assert(owed_results(dv, postings@).take(k + 1) =~= owed_results(
                        dv,
                        postings@,
                    ).take(k as int).push((postings@[k as int].0, dm_get(dv, postings@[k as int].0),
                    postings@[k as int].1)));
                    assert(rs@[pre.len() as int].doc.id == postings@[k as int].0);
                    assert(rs@[pre.len() as int].doc.content@ == dm_get(
                        dv,
                        postings@[k as int].0,
                    ));
                    assert(rs@[pre.len() as int].positions@ == postings@[k as int].1);
                }
            }
            k = k + 1;
        }
        proof {
            assert(owed_results(dv, postings@).take(postings@.len() as int) =~= owed_results(
                dv,
                postings@,
            ));
        }
        let sorted = sort_results(rs);
        proof {
            // a permutation has the input's length
            broadcast use vstd::seq_lib::group_to_multiset_ensures;

            assert(results_view(sorted@).to_multiset().len() == results_view(sorted@).len());
        }
        sorted
    }

    /// Performs a search to the specification of the given query: the query
    /// tree is evaluated to a postings map, and its documents are returned
    /// sorted by descending score.
    pub fn query(&self, q: &Query) -> (r: Vec<SearchResult>)
        requires
            self.inv(),
        ensures
            sorted_by_rank(r@),
            exists|pmv: Seq<(u64, Seq<Position>)>|
                #![auto]
                query_matches(self.tm_view(), self.query_analyzer, *q, pmv) && results_view(
                    r@,
                ).to_multiset() == owed_results(self.dm_view(), pmv).to_multiset() && r@.len()
                    == pmv.len(),
    {
        let postings = self.query_rec(q);
        proof {
            lemma_query_stored(
                self.tm_view(),
                self.dm_view(),
                self.doc_analyzer,
                self.query_analyzer,
                *q,
                postings@,
            );
            assert forall|k: int|
                0 <= k < postings@.len() implies dm_has(
                self.dm_view(),
                (#[trigger] postings@[k]).0,
            ) by {
                crate::postings::lemma_pm_entry_has(postings@, k);
            }
        }
        let r = self.compute_results(&postings);
        proof {
            assert(query_matches(self.tm_view(), self.query_analyzer, *q, postings@)
                && results_view(r@).to_multiset() == owed_results(
                self.dm_view(),
                postings@,
            ).to_multiset());
        }
        r
    }

    /// A helper method for performing a free-text match query.
    pub fn search(&self, q: &str) -> (r: Vec<SearchResult>)
        requires
            self.inv(),
        ensures
            sorted_by_rank(r@),
            results_view(r@).to_multiset() == owed_results(
                self.dm_view(),
                union_of(
                    self.tm_view(),
                    dedup_terms(token_terms(self.query_analyzer, q@)),
                ),
            ).to_multiset(),
            r@.len() == union_of(
                self.tm_view(),
                dedup_terms(token_terms(self.query_analyzer, q@)),
            ).len(),
    {
        let postings = self.postings(q);
        proof {
            let ts = dedup_terms(token_terms(self.query_analyzer, q@));
            lemma_union_of_props(self.tm_view(), ts);
            assert forall|k: int|
                0 <= k < postings@.len() implies dm_has(
                self.dm_view(),
                (#[trigger] postings@[k]).0,
            ) by {
                crate::postings::lemma_pm_entry_has(postings@, k);
                let id = postings@[k].0;
                let w = choose|w: int|
                    0 <= w < ts.len() && pm_has(lookup(self.tm_view(), #[trigger] ts[w]), id);
                assert(tm_has(self.tm_view(), ts[w]));
                assert(pm_has(tm_get(self.tm_view(), ts[w]), id));
            }
        }
        self.compute_results(&postings)
    }
}

} // verus!
