//! Search results: the matched document, the positions that caused the
//! match, relevance ranking, and highlight rendering.
//!
//! A result's score is the summed byte length of its matched spans divided
//! by the square root of the document's byte length.  Results are ranked by
//! comparing those quotients exactly: `m1/sqrt(l1) >= m2/sqrt(l2)` holds
//! exactly when `m1*m1*l2 >= m2*m2*l1`, which is decided in integers.

use vstd::prelude::*;
use vstd::multiset::Multiset;
use vstd::string::StringExecFns;
use crate::chars::{byte_off, chars_vec, lemma_byte_off_mono, lemma_byte_off_step,
    lemma_byte_off_zero, push_char};
use crate::document::Document;
use crate::postings::Position;

verus! {

/// The summed byte length of a list of spans; a span whose end does not
/// reach its begin contributes nothing.
pub open spec fn matched_of(ps: Seq<Position>) -> int
    decreases ps.len(),
{
    if ps.len() == 0 {
        0
    } else {
        matched_of(ps.drop_last()) + (if ps.last().offsets.1 >= ps.last().offsets.0 {
            ps.last().offsets.1 - ps.last().offsets.0
        } else {
            0
        })
    }
}

/// The matched byte length, clamped to fit a machine word.
pub open spec fn clamped_matched(ps: Seq<Position>) -> int {
    if matched_of(ps) > u64::MAX {
        u64::MAX as int
    } else {
        matched_of(ps)
    }
}

/// The byte length of a document's content.
pub open spec fn content_bytes(c: Seq<char>) -> int {
    vstd::utf8::encode_utf8(c).len() as int
}

/// Whether result one ranks at or above result two, where `m` is a result's
/// matched byte count and `l` its content byte count: exactly the
/// comparison of the scores `m1/sqrt(l1)` and `m2/sqrt(l2)`.
pub open spec fn rank_ge(m1: int, l1: int, m2: int, l2: int) -> bool {
    m1 * m1 * l2 >= m2 * m2 * l1
}

/// The character index at which byte offset `b` falls in the content.
pub open spec fn ci_of(c: Seq<char>, b: int) -> int {
    choose|ci: int| 0 <= ci <= c.len() && byte_off(c, ci) == b
}

/// Whether `b` is a character-boundary byte offset of the content.
pub open spec fn boundary(c: Seq<char>, b: int) -> bool {
    exists|ci: int| 0 <= ci <= c.len() && byte_off(c, ci) == b
}

/// Whether a list of positions can be rendered into content `c`: every span
/// begins and ends on a character boundary, spans are properly ordered and
/// non-overlapping, and each has positive width.
pub open spec fn highlightable(ps: Seq<Position>, c: Seq<char>) -> bool {
    &&& forall|k: int|
        0 <= k < ps.len() ==> boundary(c, (#[trigger] ps[k]).offsets.0 as int) && boundary(
            c,
            ps[k].offsets.1 as int,
        )
    &&& forall|k: int| 0 <= k < ps.len() ==> (#[trigger] ps[k]).offsets.0 <= ps[k].offsets.1
    &&& forall|k: int|
        0 < k < ps.len() ==> (#[trigger] ps[k - 1]).offsets.1 <= ps[k].offsets.0
}

/// The rendered text from span `k` on, with the cursor at character index
/// `ci`: plain content up to each span, the span wrapped in `before` and
/// `after`, and the trailing content after the last span.
pub open spec fn spec_highlight_from(
    ps: Seq<Position>,
    c: Seq<char>,
    before: Seq<char>,
    after: Seq<char>,
    k: int,
    ci: int,
) -> Seq<char>
    decreases ps.len() - k,
{
    if k < 0 || k >= ps.len() {
        c.skip(ci)
    } else {
        let bi = ci_of(c, ps[k].offsets.0 as int);
        let ei = ci_of(c, ps[k].offsets.1 as int);
        c.subrange(ci, bi) + before + c.subrange(bi, ei) + after + spec_highlight_from(
            ps,
            c,
            before,
            after,
            k + 1,
            ei,
        )
    }
}

/// The rendered highlight text of a whole result.
pub open spec fn spec_highlight(
    ps: Seq<Position>,
    c: Seq<char>,
    before: Seq<char>,
    after: Seq<char>,
) -> Seq<char> {
    spec_highlight_from(ps, c, before, after, 0, 0)
}

/// Character boundaries are unique: two character indexes with the same
/// byte offset are the same index.
pub proof fn lemma_ci_unique(c: Seq<char>, x: int, y: int)
    requires
        0 <= x <= c.len(),
        0 <= y <= c.len(),
        byte_off(c, x) == byte_off(c, y),
    ensures
        x == y,
{
    if x < y {
        lemma_byte_off_mono(c, x, y);
    }
    if y < x {
        lemma_byte_off_mono(c, y, x);
    }
}

pub proof fn lemma_ci_of(c: Seq<char>, b: int)
    requires
        boundary(c, b),
    ensures
        0 <= ci_of(c, b) <= c.len(),
        byte_off(c, ci_of(c, b)) == b,
{
}

/// A search result: a document returned for a query, with the positions of
/// the document's content that matched.
#[derive(Debug)]
pub struct SearchResult {
    /// The document returned for the search.
    pub doc: Document,
    /// The positions of the terms in the document that matched the search.
    pub positions: Vec<Position>,
}

/// The ranking key of a search result: clamped matched bytes and content
/// bytes.  A document with empty content can never match, so the byte count
/// is guarded at one only to keep the ranking order total.
pub open spec fn score_key(sr: SearchResult) -> (int, int) {
    (
        clamped_matched(sr.positions@),
        if content_bytes(sr.doc.content@) < 1 {
            1
        } else {
            content_bytes(sr.doc.content@)
        },
    )
}

/// The matched byte count of a span list is never negative.
pub proof fn lemma_matched_nonneg(ps: Seq<Position>)
    ensures
        matched_of(ps) >= 0,
        clamped_matched(ps) >= 0,
    decreases ps.len(),
{
    if ps.len() > 0 {
        lemma_matched_nonneg(ps.drop_last());
    }
}

impl SearchResult {
    /// Constructs a new search result from the given document and term
    /// positions.
    pub fn new(doc: Document, positions: Vec<Position>) -> (r: SearchResult)
        ensures
            r.doc == doc,
            r.positions == positions,
    {
        SearchResult { doc, positions }
    }

    /// The document.
    pub fn doc(&self) -> (r: &Document)
        ensures
            r == &self.doc,
    {
        &self.doc
    }

    /// The matched positions.
    pub fn positions(&self) -> (r: &Vec<Position>)
        ensures
            r == &self.positions,
    {
        &self.positions
    }

    /// The summed byte length of the matched spans, clamped to a machine
    /// word: the numerator of the result's score.
    pub fn matched_len(&self) -> (m: u64)
        ensures
            m == clamped_matched(self.positions@),
    {
        let mut sum: u128 = 0;
        let mut k: usize = 0;
        proof {
            assert(self.positions@.take(0) =~= Seq::<Position>::empty());
        }
        while k < self.positions.len()
            invariant
                k <= self.positions@.len(),
                sum == matched_of(self.positions@.take(k as int)),
                sum <= k * (u64::MAX as int),
            decreases self.positions@.len() - k,
        {
            let p = self.positions[k];
            proof {
                assert(self.positions@.take(k + 1).drop_last() =~= self.positions@.take(k as int));
                assert(self.positions@.take(k + 1).last() == self.positions@[k as int]);
                assert((k + 1) * (u64::MAX as int) == k * (u64::MAX as int) + u64::MAX) by (
                nonlinear_arith);
                assert(self.positions@.len() * (u64::MAX as int) < u128::MAX) by (nonlinear_arith)
                    requires
                        self.positions@.len() <= u64::MAX,
                ;
                assert((k as int + 1) * (u64::MAX as int) <= self.positions@.len() * (
                u64::MAX as int)) by (nonlinear_arith)
                    requires
                        k as int + 1 <= self.positions@.len(),
                ;
            }
            if p.offsets.1 >= p.offsets.0 {
                sum = sum + ((p.offsets.1 - p.offsets.0) as u128);
            }
            k = k + 1;
        }
        proof {
            assert(self.positions@.take(self.positions@.len() as int) =~= self.positions@);
        }
        if sum > (u64::MAX as u128) {
            u64::MAX
        } else {
            sum as u64
        }
    }

    /// The result's content with every matched span wrapped in `before` and
    /// `after`.  The spans must lie on character boundaries, ordered and
    /// non-overlapping; because positions are coalesced, the wrappings
    /// never nest.
    pub fn highlight(&self, before: &str, after: &str) -> (r: String)
        requires
            highlightable(self.positions@, self.doc.content@),
        ensures
            r@ == spec_highlight(self.positions@, self.doc.content@, before@, after@),
    {
        let ghost c = self.doc.content@;
        let ghost ps = self.positions@;
        let ghost b = before@;
        let ghost a = after@;
        let cs = chars_vec(self.doc.content());
        let n = cs.len();
        proof {
            lemma_byte_off_zero(c);
        }
        let mut out = String::new();
        let mut k: usize = 0;
        let mut i: usize = 0;
        let mut bpos: usize = 0;
        while k < self.positions.len()
            invariant
                highlightable(ps, c),
                ps == self.positions@,
                c == self.doc.content@,
                b == before@,
                a == after@,
                cs@ == c,
                n == c.len(),
                k <= ps.len(),
                i <= n,
                bpos as int == byte_off(c, i as int),
                k < ps.len() ==> bpos <= ps[k as int].offsets.0,
                out@ + spec_highlight_from(ps, c, b, a, k as int, i as int) =~= spec_highlight(
                    ps,
                    c,
                    b,
                    a,
                ),
            decreases ps.len() - k,
        {
            let p = self.positions[k];
            let ghost bi = ci_of(c, p.offsets.0 as int);
            let ghost ei = ci_of(c, p.offsets.1 as int);
            proof {
                lemma_ci_of(c, p.offsets.0 as int);
                lemma_ci_of(c, p.offsets.1 as int);
                if i > bi {
                    lemma_byte_off_mono(c, bi, i as int);
                }
            }
            // plain content up to the span
            while bpos < p.offsets.0
                invariant
                    highlightable(ps, c),
                    ps == self.positions@,
                    c == self.doc.content@,
                    b == before@,
                    a == after@,
                    cs@ == c,
                    n == c.len(),
                    k < ps.len(),
                    p == ps[k as int],
                    bi == ci_of(c, p.offsets.0 as int),
                    0 <= bi <= n,
                    byte_off(c, bi) == p.offsets.0 as int,
                    i <= bi,
                    bpos as int == byte_off(c, i as int),
                    out@ + spec_highlight_from(ps, c, b, a, k as int, i as int) =~= spec_highlight(
                        ps,
                        c,
                        b,
                        a,
                    ),
                decreases p.offsets.0 - bpos,
            {
                proof {
                    assert(i < bi) by {
                        if i == bi {
                        }
                    }
                    assert(i < n) by {
                        lemma_byte_off_mono(c, bi, n as int);
                    }
                    lemma_byte_off_step(c, i as int);
                    lemma_byte_off_mono(c, i as int + 1, bi);
                    assert(c.subrange(i as int, bi) =~= seq![c[i as int]] + c.subrange(i + 1, bi));
                }
                push_char(&mut out, cs[i]);
                bpos = bpos + crate::chars::utf8_len(cs[i]);
                i = i + 1;
                proof {
                    assert(spec_highlight_from(ps, c, b, a, k as int, i - 1) =~= seq![c[i - 1]]
                        + spec_highlight_from(ps, c, b, a, k as int, i as int));
                }
            }
            proof {
                lemma_byte_off_mono(c, i as int, bi);
                assert(bpos == p.offsets.0);
                assert(i == bi) by {
                    lemma_ci_unique(c, i as int, bi);
                }
                assert(c.subrange(i as int, bi) =~= Seq::<char>::empty());
            }
            out.append(before);
            proof {
                assert(spec_highlight_from(ps, c, b, a, k as int, i as int) =~= c.subrange(
                    i as int,
                    bi,
                ) + b + c.subrange(bi, ei) + a + spec_highlight_from(ps, c, b, a, k as int + 1, ei));
                assert(c.subrange(bi, ei) =~= c.subrange(i as int, ei));
                assert(out@ + c.subrange(i as int, ei) + a + spec_highlight_from(
                    ps,
                    c,
                    b,
                    a,
                    k as int + 1,
                    ei,
                ) =~= spec_highlight(ps, c, b, a));
            }
            proof {
                assert(p.offsets.0 <= p.offsets.1);
                if i > ei {
                    lemma_byte_off_mono(c, ei, i as int);
                }
            }
            // the span itself
            while bpos < p.offsets.1
                invariant
                    highlightable(ps, c),
                    ps == self.positions@,
                    c == self.doc.content@,
                    b == before@,
                    a == after@,
                    cs@ == c,
                    n == c.len(),
                    k < ps.len(),
                    p == ps[k as int],
                    ei == ci_of(c, p.offsets.1 as int),
                    0 <= ei <= n,
                    byte_off(c, ei) == p.offsets.1 as int,
                    i <= ei,
                    bpos as int == byte_off(c, i as int),
                    out@ + c.subrange(i as int, ei) + a + spec_highlight_from(
                        ps,
                        c,
                        b,
                        a,
                        k as int + 1,
                        ei,
                    ) =~= spec_highlight(ps, c, b, a),
                decreases p.offsets.1 - bpos,
            {
                proof {
                    assert(i < ei) by {
                        if i == ei {
                        }
                    }
                    assert(i < n) by {
                        lemma_byte_off_mono(c, ei, n as int);
                    }
                    lemma_byte_off_step(c, i as int);
                    lemma_byte_off_mono(c, i as int + 1, ei);
                    assert(c.subrange(i as int, ei) =~= seq![c[i as int]] + c.subrange(i + 1, ei));
                }
                push_char(&mut out, cs[i]);
                bpos = bpos + crate::chars::utf8_len(cs[i]);
                i = i + 1;
            }
            proof {
                lemma_byte_off_mono(c, i as int, ei);
                assert(bpos == p.offsets.1);
                assert(i == ei) by {
                    lemma_ci_unique(c, i as int, ei);
                }
                assert(c.subrange(i as int, ei) =~= Seq::<char>::empty());
            }
            out.append(after);
            proof {
                assert(out@ + spec_highlight_from(ps, c, b, a, k as int + 1, i as int)
                    =~= spec_highlight(ps, c, b, a));
                if k + 1 < ps.len() {
                    assert(ps[(k as int + 1) - 1].offsets.1 <= ps[k as int + 1].offsets.0);
                }
            }
            k = k + 1;
        }
        proof {
            assert(spec_highlight_from(ps, c, b, a, ps.len() as int, i as int) =~= c.skip(
                i as int,
            ));
            assert(out@ + c.skip(i as int) =~= spec_highlight(ps, c, b, a));
        }
        // trailing content
        while i < n
            invariant
                c == self.doc.content@,
                cs@ == c,
                n == c.len(),
                i <= n,
                out@ + c.skip(i as int) =~= spec_highlight(
                    self.positions@,
                    c,
                    before@,
                    after@,
                ),
            decreases n - i,
        {
            proof {
                assert(c.skip(i as int) =~= seq![c[i as int]] + c.skip(i + 1));
            }
            push_char(&mut out, cs[i]);
            i = i + 1;
        }
        proof {
            assert(c.skip(n as int) =~= Seq::<char>::empty());
            assert(out@ =~= spec_highlight(self.positions@, c, before@, after@));
        }
        out
    }
}

/// One side's 192-bit product `m*m*l`, as a high limb and a low limb below
/// two to the sixty-fourth.
fn square_times(m: u64, l: u64) -> (r: (u128, u128))
    ensures
        r.0 * 0x10000000000000000 + r.1 == (m as int) * (m as int) * (l as int),
        r.1 < 0x10000000000000000,
        r.0 >= 0,
{
    proof {
        assert((m as int) * (m as int) <= (u64::MAX as int) * (u64::MAX as int)) by (
        nonlinear_arith)
            requires
                0 <= m <= u64::MAX,
        ;
    }
    let a: u128 = (m as u128) * (m as u128);
    let ah: u128 = a / 0x10000000000000000u128;
    let al: u128 = a % 0x10000000000000000u128;
    proof {
        vstd::arithmetic::div_mod::lemma_fundamental_div_mod(a as int, 0x10000000000000000);
        assert(ah < 0x10000000000000000) by (nonlinear_arith)
            requires
                a <= (u64::MAX as int) * (u64::MAX as int),
                ah == a as int / 0x10000000000000000,
        ;
        assert(ah * (l as int) <= (0x10000000000000000 - 1) * (u64::MAX as int)) by (
        nonlinear_arith)
            requires
                0 <= ah < 0x10000000000000000,
                0 <= l <= u64::MAX,
        ;
        assert(al * (l as int) <= (0x10000000000000000 - 1) * (u64::MAX as int)) by (
        nonlinear_arith)
            requires
                0 <= al < 0x10000000000000000,
                0 <= l <= u64::MAX,
        ;
    }
    let p: u128 = ah * (l as u128);
    let q: u128 = al * (l as u128);
    let qh: u128 = q / 0x10000000000000000u128;
    let lo: u128 = q % 0x10000000000000000u128;
    proof {
        vstd::arithmetic::div_mod::lemma_fundamental_div_mod(q as int, 0x10000000000000000);
        assert(qh < 0x10000000000000000) by (nonlinear_arith)
            requires
                q <= (0x10000000000000000 - 1) * (u64::MAX as int),
                qh == q as int / 0x10000000000000000,
        ;
    }
    let hi: u128 = p + qh;
    proof {
        // the full product assembles from the limbs
        assert((a as int) * (l as int) == (p as int) * 0x10000000000000000 + q) by (nonlinear_arith)
            requires
                a as int == ah * 0x10000000000000000 + al,
                p as int == ah * (l as int),
                q as int == al * (l as int),
        ;
        assert((hi as int) * 0x10000000000000000 + lo == (p as int) * 0x10000000000000000 + q) by (
        nonlinear_arith)
            requires
                hi as int == p + qh,
                q as int == qh * 0x10000000000000000 + lo,
        ;
        assert((a as int) * (l as int) == (m as int) * (m as int) * (l as int)) by (nonlinear_arith)
            requires
                a as int == (m as int) * (m as int),
        ;
    }
    (hi, lo)
}

/// Decides the exact score comparison `m1/sqrt(l1) >= m2/sqrt(l2)` in
/// machine integers, by comparing the cross products limb by limb.
pub fn rank_at_least(m1: u64, l1: u64, m2: u64, l2: u64) -> (r: bool)
    ensures
        r == rank_ge(m1 as int, l1 as int, m2 as int, l2 as int),
{
    let (h1, lo1) = square_times(m1, l2);
    let (h2, lo2) = square_times(m2, l1);
    proof {
        assert((h1 > h2 || (h1 == h2 && lo1 >= lo2)) == ((h1 as int) * 0x10000000000000000 + lo1
            >= (h2 as int) * 0x10000000000000000 + lo2)) by (nonlinear_arith)
            requires
                0 <= lo1 < 0x10000000000000000,
                0 <= lo2 < 0x10000000000000000,
                h1 >= 0,
                h2 >= 0,
        ;
    }
    h1 > h2 || (h1 == h2 && lo1 >= lo2)
}

/// The ranking order is total: one of the two directions always holds.
pub proof fn lemma_rank_total(m1: int, l1: int, m2: int, l2: int)
    ensures
        rank_ge(m1, l1, m2, l2) || rank_ge(m2, l2, m1, l1),
{
}

/// The ranking order is transitive on non-negative numerators and positive
/// denominators.
pub proof fn lemma_rank_trans(m1: int, l1: int, m2: int, l2: int, m3: int, l3: int)
    requires
        m1 >= 0,
        l1 >= 1,
        m2 >= 0,
        l2 >= 1,
        m3 >= 0,
        l3 >= 1,
        rank_ge(m1, l1, m2, l2),
        rank_ge(m2, l2, m3, l3),
    ensures
        rank_ge(m1, l1, m3, l3),
{
    if m2 > 0 {
        assert((m1 * m1 * l3) * (m2 * m2 * l2) >= (m3 * m3 * l1) * (m2 * m2 * l2)) by (
        nonlinear_arith)
            requires
                m1 * m1 * l2 >= m2 * m2 * l1,
                m2 * m2 * l3 >= m3 * m3 * l2,
                m1 >= 0,
                l1 >= 0,
                m2 >= 0,
                l2 >= 0,
                m3 >= 0,
                l3 >= 0,
        ;
        assert(m2 * m2 * l2 > 0) by (nonlinear_arith)
            requires
                m2 > 0,
                l2 >= 1,
        ;
        assert(m1 * m1 * l3 >= m3 * m3 * l1) by (nonlinear_arith)
            requires
                (m1 * m1 * l3) * (m2 * m2 * l2) >= (m3 * m3 * l1) * (m2 * m2 * l2),
                m2 * m2 * l2 > 0,
        ;
    } else {
        // a zero numerator in the middle forces a zero numerator below it
        assert(m3 * m3 * l2 <= 0) by (nonlinear_arith)
            requires
                m2 * m2 * l3 >= m3 * m3 * l2,
                m2 == 0,
        ;
        assert(m3 == 0) by (nonlinear_arith)
            requires
                m3 * m3 * l2 <= 0,
                l2 >= 1,
                m3 >= 0,
        ;
        assert(m3 * m3 * l1 == 0 && m1 * m1 * l3 >= 0) by (nonlinear_arith)
            requires
                m3 == 0,
                m1 >= 0,
                l3 >= 0,
        ;
    }
}

/// The view of a result list: each result reduced to its document id,
/// content and positions.
pub open spec fn results_view(rs: Seq<SearchResult>) -> Seq<(u64, Seq<char>, Seq<Position>)> {
    Seq::new(rs.len(), |i: int| (rs[i].doc.id, rs[i].doc.content@, rs[i].positions@))
}

/// Whether a result list is sorted by descending score.
pub open spec fn sorted_by_rank(rs: Seq<SearchResult>) -> bool {
    forall|i: int, j: int|
        0 <= i < j < rs.len() ==> rank_ge(
            score_key(#[trigger] rs[i]).0,
            score_key(rs[i]).1,
            score_key(#[trigger] rs[j]).0,
            score_key(rs[j]).1,
        )
}

/// The ranking key of a result, in machine integers.
fn key_of(sr: &SearchResult) -> (r: (u64, u64))
    ensures
        r.0 as int == score_key(*sr).0,
        r.1 as int == score_key(*sr).1,
{
    let m = sr.matched_len();
    let l = sr.doc.content().as_bytes().len();
    if l == 0 {
        (m, 1)
    } else {
        (m, l as u64)
    }
}

proof fn lemma_results_view_remove(rs: Seq<SearchResult>, i: int)
    requires
        0 <= i < rs.len(),
    ensures
        results_view(rs.remove(i)) =~= results_view(rs).remove(i),
{
    assert forall|k: int| 0 <= k < rs.len() - 1 implies #[trigger] results_view(rs.remove(i))[k]
        == results_view(rs).remove(i)[k] by {
        if k < i {
            assert(rs.remove(i)[k] == rs[k]);
        } else {
            assert(rs.remove(i)[k] == rs[k + 1]);
        }
    }
}

pub proof fn lemma_results_view_push(rs: Seq<SearchResult>, x: SearchResult)
    ensures
        results_view(rs.push(x)) =~= results_view(rs).push((x.doc.id, x.doc.content@, x.positions@)),
{
    assert forall|k: int| 0 <= k < rs.len() + 1 implies #[trigger] results_view(rs.push(x))[k]
        == results_view(rs).push((x.doc.id, x.doc.content@, x.positions@))[k] by {
        if k < rs.len() {
            assert(rs.push(x)[k] == rs[k]);
        } else {
            assert(rs.push(x)[k] == x);
        }
    }
}

/// Sorts the results by descending score: the result is ordered by the
/// exact score comparison and holds the same results as the input.
pub fn sort_results(input: Vec<SearchResult>) -> (r: Vec<SearchResult>)
    ensures
        sorted_by_rank(r@),
        results_view(r@).to_multiset() == results_view(input@).to_multiset(),
{
    broadcast use vstd::seq_lib::group_to_multiset_ensures;

    let mut rest = input;
    let mut out: Vec<SearchResult> = Vec::new();
    while rest.len() > 0
        invariant
            sorted_by_rank(out@),
            forall|x: int, y: int|
                0 <= x < out@.len() && 0 <= y < rest@.len() ==> rank_ge(
                    score_key(#[trigger] out@[x]).0,
                    score_key(out@[x]).1,
                    score_key(#[trigger] rest@[y]).0,
                    score_key(rest@[y]).1,
                ),
            results_view(out@).to_multiset().add(results_view(rest@).to_multiset())
                == results_view(input@).to_multiset(),
        decreases rest@.len(),
    {
        // pick the best remaining result
        let mut best: usize = 0;
        let mut i: usize = 1;
        let mut bkey = key_of(&rest[0]);
        while i < rest.len()
            invariant
                rest@.len() > 0,
                best < i,
                i <= rest@.len(),
                bkey.0 as int == score_key(rest@[best as int]).0,
                bkey.1 as int == score_key(rest@[best as int]).1,
                forall|j: int|
                    0 <= j < i ==> rank_ge(
                        score_key(rest@[best as int]).0,
                        score_key(rest@[best as int]).1,
                        score_key(#[trigger] rest@[j]).0,
                        score_key(rest@[j]).1,
                    ),
            decreases rest@.len() - i,
        {
            let k = key_of(&rest[i]);
            if !rank_at_least(bkey.0, bkey.1, k.0, k.1) {
                proof {
                    lemma_rank_total(
                        score_key(rest@[best as int]).0,
                        score_key(rest@[best as int]).1,
                        score_key(rest@[i as int]).0,
                        score_key(rest@[i as int]).1,
                    );
                    assert forall|j: int| 0 <= j < i + 1 implies rank_ge(
                        score_key(rest@[i as int]).0,
                        score_key(rest@[i as int]).1,
                        score_key(#[trigger] rest@[j]).0,
                        score_key(rest@[j]).1,
                    ) by {
                        if j < i {
                            lemma_matched_nonneg(rest@[i as int].positions@);
                            lemma_matched_nonneg(rest@[best as int].positions@);
                            lemma_matched_nonneg(rest@[j].positions@);
                            lemma_rank_trans(
                                score_key(rest@[i as int]).0,
                                score_key(rest@[i as int]).1,
                                score_key(rest@[best as int]).0,
                                score_key(rest@[best as int]).1,
                                score_key(rest@[j]).0,
                                score_key(rest@[j]).1,
                            );
                        }
                    }
                }
                best = i;
                bkey = k;
            }
            i = i + 1;
        }
        let ghost pre_rest = rest@;
        let ghost pre_out = out@;
        let x = rest.remove(best);
        proof {
            lemma_results_view_remove(pre_rest, best as int);
        }
        out.push(x);
        proof {
            let vx = (x.doc.id, x.doc.content@, x.positions@);
            results_view(pre_out).to_multiset_ensures();
            results_view(pre_rest).to_multiset_ensures();
            lemma_results_view_push(pre_out, x);
            assert(results_view(pre_rest)[best as int] == vx);
            assert(results_view(out@) == results_view(pre_out).push(vx));
            assert(results_view(pre_out).push(vx).to_multiset() =~= results_view(
                pre_out,
            ).to_multiset().insert(vx));
            assert(results_view(rest@) == results_view(pre_rest).remove(best as int));
            assert(results_view(pre_rest).remove(best as int).to_multiset() =~= results_view(
                pre_rest,
            ).to_multiset().remove(vx));
            assert(results_view(pre_rest).contains(vx));
            assert(results_view(pre_rest).to_multiset().count(vx) > 0);
            assert(results_view(out@).to_multiset().add(results_view(rest@).to_multiset())
                =~= results_view(input@).to_multiset()) by {
                assert(results_view(out@).to_multiset() == results_view(
                    pre_out,
                ).to_multiset().insert(vx));
                assert(results_view(rest@).to_multiset() == results_view(
                    pre_rest,
                ).to_multiset().remove(vx));
                assert forall|e: (u64, Seq<char>, Seq<Position>)|
                    #[trigger] results_view(out@).to_multiset().add(
                        results_view(rest@).to_multiset(),
                    ).count(e) == results_view(input@).to_multiset().count(e) by {
                    assert(results_view(pre_out).to_multiset().add(
                        results_view(pre_rest).to_multiset(),
                    ).count(e) == results_view(input@).to_multiset().count(e));
                }
            }
            // the chosen result ranks above everything left
            assert forall|y: int| 0 <= y < rest@.len() implies rank_ge(
                score_key(x).0,
                score_key(x).1,
                score_key(#[trigger] rest@[y]).0,
                score_key(rest@[y]).1,
            ) by {
                let y2: int = if y < best as int {
                    y
                } else {
                    y + 1
                };
                assert(rest@[y] == pre_rest[y2]);
            }
            assert forall|p: int, q: int| 0 <= p < q < out@.len() implies rank_ge(
                score_key(#[trigger] out@[p]).0,
                score_key(out@[p]).1,
                score_key(#[trigger] out@[q]).0,
                score_key(out@[q]).1,
            ) by {
                if q < out@.len() - 1 {
                    assert(out@[p] == pre_out[p] && out@[q] == pre_out[q]);
                } else {
                    assert(out@[q] == x);
                    if p < out@.len() - 1 {
                        assert(out@[p] == pre_out[p]);
                        assert(pre_rest[best as int] == x);
                    }
                }
            }
        }
    }
    proof {
        assert(results_view(rest@).to_multiset() =~= Multiset::<
            (u64, Seq<char>, Seq<Position>),
        >::empty()) by {
            assert(results_view(rest@) =~= Seq::<(u64, Seq<char>, Seq<Position>)>::empty());
        }
        assert(results_view(out@).to_multiset() =~= results_view(input@).to_multiset());
    }
    out
}

} // verus!
