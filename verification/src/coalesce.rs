//! Merge/coalesce primitives over sorted vectors.
//!
//! Elements of a sorted vector that touch or overlap can be merged in lieu
//! of inserting a new element; the operations here insert one element with
//! local merging (`coalesce`), search then insert (`search_coalesce`), and
//! stream a whole sorted sequence in (`merge_coalesce`).

use vstd::prelude::*;

verus! {

/// An element of a sorted vector that can sometimes be combined with a
/// neighbour.  `le` is the total order the vector is sorted by; `can_merge`
/// bounds the inputs `merge` accepts; `merge_spec` says what `merge` returns.
pub trait Merge: Sized + Copy {
    spec fn le(self, other: Self) -> bool;

    spec fn can_merge(self, other: Self) -> bool;

    spec fn merge_spec(self, other: Self) -> Option<Self>;

    /// The order and merge laws the coalescing operations rely on.
    proof fn lemma_merge_laws(self, b: Self, c: Self)
        ensures
            (self.le(b) && b.le(self)) ==> self == b,
            (self.le(b) && b.le(c)) ==> self.le(c),
            self.le(b) || b.le(self),
            self.le(b) ==> self.can_merge(b),
            (self.can_merge(b) && b.le(c)) ==> self.can_merge(c),
            (self.can_merge(b) && self.merge_spec(b) is Some && self.can_merge(c))
                ==> self.merge_spec(b)->Some_0.can_merge(c),
            (self.can_merge(b) && self.merge_spec(b) is Some && self.le(c) && b.le(c))
                ==> self.merge_spec(b)->Some_0.le(c),
            (self.can_merge(b) && self.merge_spec(b) is Some) ==> self.le(
                self.merge_spec(b)->Some_0,
            ),
    ;

    fn le_exec(self, other: Self) -> (r: bool)
        ensures
            r == self.le(other),
    ;

    fn can_merge_exec(self, other: Self) -> (r: bool)
        ensures
            r == self.can_merge(other),
    ;

    /// Returns the combined element if the two can merge, else none.
    fn merge(self, other: Self) -> (r: Option<Self>)
        requires
            self.can_merge(other),
        ensures
            r == self.merge_spec(other),
    ;
}

/// A half-open integer interval, from its first field (inclusive) to its
/// second (exclusive).
#[derive(Copy, Clone, Debug, PartialEq, Eq, Structural)]
pub struct Span(pub i64, pub i64);

/// Intervals are ordered lexicographically; two intervals merge to their
/// hull when the first reaches the second.
impl Merge for Span {
    open spec fn le(self, other: Self) -> bool {
        self.0 < other.0 || (self.0 == other.0 && self.1 <= other.1)
    }

    open spec fn can_merge(self, other: Self) -> bool {
        self.0 <= other.0
    }

    open spec fn merge_spec(self, other: Self) -> Option<Self> {
        if self.1 >= other.0 {
            if self.1 < other.1 {
                Some(Span(self.0, other.1))
            } else {
                Some(Span(self.0, self.1))
            }
        } else {
            None
        }
    }

    proof fn lemma_merge_laws(self, b: Self, c: Self) {
    }

    fn le_exec(self, other: Self) -> (r: bool) {
        self.0 < other.0 || (self.0 == other.0 && self.1 <= other.1)
    }

    fn can_merge_exec(self, other: Self) -> (r: bool) {
        self.0 <= other.0
    }

    fn merge(self, other: Self) -> (r: Option<Self>) {
        if self.1 >= other.0 {
            if self.1 < other.1 {
                Some(Span(self.0, other.1))
            } else {
                Some(Span(self.0, self.1))
            }
        } else {
            None
        }
    }
}

/// The sequence after inserting `el` at index `i` of `s`, merging with the
/// left and right neighbours where possible.
pub open spec fn spec_coalesce<T: Merge>(s: Seq<T>, i: int, el: T) -> Seq<T>
    recommends
        0 <= i <= s.len(),
{
    if s.len() == 0 {
        seq![el]
    } else if i == 0 {
        match el.merge_spec(s[0]) {
            Some(m) => s.update(0, m),
            None => seq![el] + s,
        }
    } else if i == s.len() {
        match s[i - 1].merge_spec(el) {
            Some(m) => s.update(i - 1, m),
            None => s.push(el),
        }
    } else {
        match s[i - 1].merge_spec(el) {
            Some(m) => match m.merge_spec(s[i]) {
                Some(m2) => s.update(i - 1, m2).remove(i),
                None => s.update(i - 1, m),
            },
            None => match el.merge_spec(s[i]) {
                Some(m) => s.update(i, m),
                None => s.insert(i, el),
            },
        }
    }
}

/// Inserts or merges `el` into `v` at index `i`.
pub fn coalesce<T: Merge>(v: &mut Vec<T>, i: usize, el: T)
    requires
        i <= old(v).len(),
        i > 0 ==> old(v)@[i - 1].can_merge(el),
        i < old(v).len() ==> el.can_merge(old(v)@[i as int]),
        (0 < i && i < old(v).len()) ==> old(v)@[i - 1].can_merge(old(v)@[i as int]),
    ensures
        final(v)@ == spec_coalesce(old(v)@, i as int, el),
{
    if v.len() == 0 {
        v.insert(i, el);
        assert(v@ =~= seq![el]);
    } else if i == 0 {
        if let Some(m) = el.merge(v[0]) {
            v[0] = m;
            assert(v@ =~= old(v)@.update(0, m));
        } else {
            v.insert(0, el);
            assert(v@ =~= seq![el] + old(v)@);
        }
    } else if i == v.len() {
        if let Some(m) = v[i - 1].merge(el) {
            v[i - 1] = m;
            assert(v@ =~= old(v)@.update(i - 1, m));
        } else {
            v.insert(i, el);
            assert(v@ =~= old(v)@.push(el));
        }
    } else {
        let left = v[i - 1];
        if let Some(m) = left.merge(el) {
            proof {
                T::lemma_merge_laws(left, el, old(v)@[i as int]);
            }
            let right = v[i];
            if let Some(m2) = m.merge(right) {
                v[i - 1] = m2;
                v.remove(i);
                assert(v@ =~= old(v)@.update(i - 1, m2).remove(i as int));
            } else {
                v[i - 1] = m;
                assert(v@ =~= old(v)@.update(i - 1, m));
            }
        } else if let Some(m) = el.merge(v[i]) {
            v[i] = m;
            assert(v@ =~= old(v)@.update(i as int, m));
        } else {
            v.insert(i, el);
            assert(v@ =~= old(v)@.insert(i as int, el));
        }
    }
}

/// Index of the first element of `s` at or after `start` that `el` is at or
/// below; the length of `s` when there is none.
pub open spec fn spec_lower_from<T: Merge>(s: Seq<T>, start: int, el: T) -> int
    recommends
        0 <= start <= s.len(),
    decreases s.len() - start,
{
    if start < 0 || start >= s.len() {
        s.len() as int
    } else if el.le(s[start]) {
        start
    } else {
        spec_lower_from(s, start + 1, el)
    }
}

pub proof fn lemma_lower_from_bounds<T: Merge>(s: Seq<T>, start: int, el: T)
    requires
        0 <= start <= s.len(),
    ensures
        start <= spec_lower_from(s, start, el) <= s.len(),
        spec_lower_from(s, start, el) < s.len() ==> el.le(s[spec_lower_from(s, start, el)]),
        forall|j: int|
            start <= j < spec_lower_from(s, start, el) ==> !el.le(#[trigger] s[j]),
    decreases s.len() - start,
{
    if start < s.len() && !el.le(s[start]) {
        lemma_lower_from_bounds(s, start + 1, el);
    }
}

/// The sequence and index produced by `search_coalesce`: the found index if
/// `el` is already present; else the insertion index, with `el` coalesced in
/// when the left neighbour admits a merge attempt and inserted plainly when
/// it does not.
pub open spec fn spec_search_coalesce<T: Merge>(s: Seq<T>, start: int, el: T) -> (Seq<T>, int) {
    let i = spec_lower_from(s, start, el);
    if i < s.len() && s[i] == el {
        (s, i)
    } else if 0 < i && !s[i - 1].can_merge(el) {
        (s.insert(i, el), i)
    } else {
        (spec_coalesce(s, i, el), i)
    }
}

/// Searches `v[start..]` for the position of `el` in sort order; if an equal
/// element is already there, returns its index and changes nothing, else
/// coalesces `el` in at the insertion index and returns that index.
pub fn search_coalesce<T: Merge>(v: &mut Vec<T>, start: usize, el: T) -> (idx: usize)
    requires
        start <= old(v).len(),
    ensures
        (final(v)@, idx as int) == spec_search_coalesce(old(v)@, start as int, el),
        idx <= final(v).len(),
{
    proof {
        lemma_lower_from_bounds(old(v)@, start as int, el);
    }
    let ghost gi = spec_lower_from(old(v)@, start as int, el);
    let mut i: usize = start;
    loop
        invariant
            start <= i <= v.len(),
            v@ == old(v)@,
            gi == spec_lower_from(v@, i as int, el),
        ensures
            start <= i <= v.len(),
            v@ == old(v)@,
            i as int == gi,
        decreases v.len() - i,
    {
        if i >= v.len() {
            break ;
        }
        if el.le_exec(v[i]) {
            break ;
        }
        i = i + 1;
    }
    if i < v.len() {
        let here = v[i];
        if el.le_exec(here) && here.le_exec(el) {
            proof {
                T::lemma_merge_laws(el, here, here);
                assert(here == el);
            }
            return i;
        }
        proof {
            assert(old(v)@[i as int] != el) by {
                T::lemma_merge_laws(el, el, el);
            }
        }
    }
    if i > 0 && !v[i - 1].can_merge_exec(el) {
        v.insert(i, el);
        assert(v@ =~= old(v)@.insert(i as int, el));
        return i;
    }
    proof {
        if i as int > start {
            assert(!el.le(old(v)@[i - 1]));
            T::lemma_merge_laws(old(v)@[i - 1], el, el);
        }
        if (i as int) < old(v)@.len() {
            T::lemma_merge_laws(el, old(v)@[i as int], old(v)@[i as int]);
            if 0 < i {
                T::lemma_merge_laws(old(v)@[i - 1], el, old(v)@[i as int]);
            }
        }
    }
    coalesce(v, i, el);
    i
}

/// The vector and threaded index after streaming every element of `other`
/// into `s` through `search_coalesce`.
pub open spec fn spec_merge_coalesce<T: Merge>(s: Seq<T>, idx: int, other: Seq<T>) -> (Seq<T>, int)
    decreases other.len(),
{
    if other.len() == 0 {
        (s, idx)
    } else {
        let (s2, idx2) = spec_search_coalesce(s, idx, other[0]);
        spec_merge_coalesce(s2, idx2, other.drop_first())
    }
}

/// Streams the elements of the sorted vector `other` into `v` in order,
/// threading each returned index as the next search's lower bound.
pub fn merge_coalesce<T: Merge>(v: &mut Vec<T>, other: &Vec<T>)
    ensures
        final(v)@ == spec_merge_coalesce(old(v)@, 0, other@).0,
{
    let mut idx: usize = 0;
    let mut k: usize = 0;
    proof {
        assert(other@.skip(0) =~= other@);
    }
    while k < other.len()
        invariant
            k <= other.len(),
            idx <= v.len(),
            spec_merge_coalesce(old(v)@, 0, other@).0 == spec_merge_coalesce(
                v@,
                idx as int,
                other@.skip(k as int),
            ).0,
        decreases other.len() - k,
    {
        let el = other[k];
        proof {
            assert(other@.skip(k as int)[0] == el);
            assert(other@.skip(k as int).drop_first() =~= other@.skip(k as int + 1));
        }
        idx = search_coalesce(v, idx, el);
        k = k + 1;
    }
    proof {
        assert(other@.skip(other@.len() as int) =~= Seq::<T>::empty());
    }
}

/// An empty feed leaves the vector and the threaded index alone.
pub proof fn lemma_merge_coalesce_empty_feed<T: Merge>(s: Seq<T>, idx: int)
    ensures
        spec_merge_coalesce(s, idx, Seq::<T>::empty()) == (s, idx),
{
}

/// Feeding one more element is one more search-and-coalesce at the end.
pub proof fn lemma_merge_coalesce_snoc<T: Merge>(s: Seq<T>, idx: int, front: Seq<T>, p: T)
    ensures
        spec_merge_coalesce(s, idx, front.push(p)) == ({
            let (s2, idx2) = spec_merge_coalesce(s, idx, front);
            spec_search_coalesce(s2, idx2, p)
        }),
    decreases front.len(),
{
    let w = front.push(p);
    if front.len() == 0 {
        assert(w[0] == p);
        assert(w.drop_first() =~= Seq::<T>::empty());
        let (s2, idx2) = spec_search_coalesce(s, idx, p);
        lemma_merge_coalesce_empty_feed(s2, idx2);
    } else {
        assert(w[0] == front[0]);
        assert(w.drop_first() =~= front.drop_first().push(p));
        let (s1, idx1) = spec_search_coalesce(s, idx, front[0]);
        lemma_merge_coalesce_snoc(s1, idx1, front.drop_first(), p);
    }
}

} // verus!
