//! Positions, postings lists and postings maps.
//!
//! A postings list is a sorted vector of `Position`s for one (term,
//! document) pair; a postings map is an ordered mapping from document id to
//! postings list, kept as a vector of pairs sorted by id.

use vstd::prelude::*;
use crate::coalesce::{Merge, merge_coalesce, search_coalesce, spec_merge_coalesce,
    spec_search_coalesce};

verus! {

/// Information about the position of a single term occurrence within a
/// document.
#[derive(Copy, Clone, Debug, Hash, PartialEq, Eq)]
pub struct Position {
    /// Byte indexes into the document at the beginning (inclusive) and end
    /// (exclusive) of the occurrence.
    pub offsets: (usize, usize),
    /// The token position of the occurrence: the number of
    /// whitespace-delimited words that precede it in the document.
    pub position: usize,
}

impl Position {
    /// Creates a new Position with the given offsets and token position.
    pub fn new(offsets: (usize, usize), position: usize) -> (r: Position)
        ensures
            r == (Position { offsets, position }),
    {
        Position { offsets, position }
    }
}

/// Positions are ordered lexicographically by (offsets, token position);
/// two positions with the same token position merge to the convex hull of
/// their byte ranges when those touch or overlap.
impl Merge for Position {
    open spec fn le(self, other: Self) -> bool {
        self.offsets.0 < other.offsets.0 || (self.offsets.0 == other.offsets.0 && (self.offsets.1
            < other.offsets.1 || (self.offsets.1 == other.offsets.1 && self.position
            <= other.position)))
    }

    open spec fn can_merge(self, other: Self) -> bool {
        self.offsets.0 <= other.offsets.0
    }

    open spec fn merge_spec(self, other: Self) -> Option<Self> {
        if self.position == other.position && self.offsets.1 >= other.offsets.0 {
            if self.offsets.1 < other.offsets.1 {
                Some(Position { offsets: (self.offsets.0, other.offsets.1), position: self.position })
            } else {
                Some(Position { offsets: (self.offsets.0, self.offsets.1), position: self.position })
            }
        } else {
            None
        }
    }

    proof fn lemma_merge_laws(self, b: Self, c: Self) {
    }

    fn le_exec(self, other: Self) -> (r: bool) {
        self.offsets.0 < other.offsets.0 || (self.offsets.0 == other.offsets.0 && (self.offsets.1
            < other.offsets.1 || (self.offsets.1 == other.offsets.1 && self.position
            <= other.position)))
    }

    fn can_merge_exec(self, other: Self) -> (r: bool) {
        self.offsets.0 <= other.offsets.0
    }

    fn merge(self, other: Self) -> (r: Option<Self>) {
        if self.position == other.position && self.offsets.1 >= other.offsets.0 {
            if self.offsets.1 < other.offsets.1 {
                Some(Position { offsets: (self.offsets.0, other.offsets.1), position: self.position })
            } else {
                Some(Position { offsets: (self.offsets.0, self.offsets.1), position: self.position })
            }
        } else {
            None
        }
    }
}

/// Copies a postings list.
pub fn copy_positions(l: &Vec<Position>) -> (r: Vec<Position>)
    ensures
        r@ == l@,
{
    let mut r: Vec<Position> = Vec::new();
    let mut i: usize = 0;
    while i < l.len()
        invariant
            i <= l.len(),
            r@ == l@.take(i as int),
        decreases l.len() - i,
    {
        r.push(l[i]);
        proof {
            assert(l@.take(i + 1) =~= l@.take(i as int).push(l@[i as int]));
        }
        i = i + 1;
    }
    proof {
        assert(l@.take(l@.len() as int) =~= l@);
    }
    r
}

/// First index of `v` holding `id`; the length of `v` when there is none.
pub open spec fn pm_find(v: Seq<(u64, Seq<Position>)>, id: u64) -> int
    decreases v.len(),
{
    if v.len() == 0 {
        0
    } else if v[0].0 == id {
        0
    } else {
        1 + pm_find(v.drop_first(), id)
    }
}

pub open spec fn pm_has(v: Seq<(u64, Seq<Position>)>, id: u64) -> bool {
    pm_find(v, id) < v.len()
}

/// The postings list recorded for `id`.
pub open spec fn pm_get(v: Seq<(u64, Seq<Position>)>, id: u64) -> Seq<Position> {
    v[pm_find(v, id)].1
}

/// The ids of a postings map view, in the order they are stored.
pub open spec fn pm_ids(v: Seq<(u64, Seq<Position>)>) -> Seq<u64> {
    Seq::new(v.len(), |i: int| v[i].0)
}

/// The abstract value of stored entries: each postings list replaced by its
/// view.
pub open spec fn pm_view_of(entries: Seq<(u64, Vec<Position>)>) -> Seq<(u64, Seq<Position>)> {
    Seq::new(entries.len(), |i: int| (entries[i].0, entries[i].1@))
}

pub proof fn lemma_pm_view_push(entries: Seq<(u64, Vec<Position>)>, e: (u64, Vec<Position>))
    ensures
        pm_view_of(entries.push(e)) =~= pm_view_of(entries).push((e.0, e.1@)),
{
    assert forall|k: int| 0 <= k < entries.len() + 1 implies #[trigger] pm_view_of(
        entries.push(e),
    )[k] == pm_view_of(entries).push((e.0, e.1@))[k] by {
        if k < entries.len() {
            assert(entries.push(e)[k] == entries[k]);
        } else {
            assert(entries.push(e)[k] == e);
        }
    }
}

/// Well-formed postings map view: ids strictly increasing.
pub open spec fn pm_wf(v: Seq<(u64, Seq<Position>)>) -> bool {
    forall|i: int, j: int| 0 <= i < j < v.len() ==> (#[trigger] v[i]).0 < (#[trigger] v[j]).0
}

pub proof fn lemma_pm_find_props(v: Seq<(u64, Seq<Position>)>, id: u64)
    ensures
        0 <= pm_find(v, id) <= v.len(),
        pm_find(v, id) < v.len() ==> v[pm_find(v, id)].0 == id,
        forall|j: int| 0 <= j < pm_find(v, id) ==> (#[trigger] v[j]).0 != id,
    decreases v.len(),
{
    if v.len() > 0 && v[0].0 != id {
        lemma_pm_find_props(v.drop_first(), id);
        assert forall|j: int| 0 <= j < pm_find(v, id) implies (#[trigger] v[j]).0 != id by {
            if j > 0 {
                assert(v.drop_first()[j - 1].0 != id);
            }
        }
    }
}

/// A membership fact: some entry holds `id` exactly when `pm_find` lands
/// inside the sequence.
pub proof fn lemma_pm_has(v: Seq<(u64, Seq<Position>)>, id: u64)
    ensures
        pm_has(v, id) <==> exists|i: int| 0 <= i < v.len() && (#[trigger] v[i]).0 == id,
    decreases v.len(),
{
    lemma_pm_find_props(v, id);
    if pm_has(v, id) {
        assert(v[pm_find(v, id)].0 == id);
    }
}

/// An ordered mapping from document id to postings list for one term.
/// Records which documents contain the term, and where.
#[derive(Debug)]
pub struct PostingsMap {
    pub entries: Vec<(u64, Vec<Position>)>,
}

impl View for PostingsMap {
    type V = Seq<(u64, Seq<Position>)>;

    open spec fn view(&self) -> Seq<(u64, Seq<Position>)> {
        pm_view_of(self.entries@)
    }
}

impl PostingsMap {
    pub open spec fn wf(self) -> bool {
        pm_wf(self@)
    }

    /// Constructs a new, empty postings map.
    pub fn new() -> (r: PostingsMap)
        ensures
            r@ =~= Seq::<(u64, Seq<Position>)>::empty(),
            r.wf(),
    {
        PostingsMap { entries: Vec::new() }
    }

    pub fn len(&self) -> (n: usize)
        ensures
            n == self@.len(),
    {
        self.entries.len()
    }

    pub fn is_empty(&self) -> (r: bool)
        ensures
            r == (self@.len() == 0),
    {
        self.entries.len() == 0
    }

    /// The id of the entry at a storage index.
    pub fn id_at(&self, i: usize) -> (id: u64)
        requires
            i < self@.len(),
        ensures
            id == self@[i as int].0,
    {
        self.entries[i].0
    }

    /// The postings list of the entry at a storage index.
    pub fn list_at(&self, i: usize) -> (l: &Vec<Position>)
        requires
            i < self@.len(),
        ensures
            l@ == self@[i as int].1,
    {
        &self.entries[i].1
    }

    /// Storage index of `id`, or the map's length when absent.
    pub fn find(&self, id: u64) -> (r: usize)
        ensures
            r as int == pm_find(self@, id),
            r <= self@.len(),
    {
        proof {
            lemma_pm_find_props(self@, id);
        }
        let mut i: usize = 0;
        while i < self.entries.len()
            invariant
                i <= self@.len(),
                forall|j: int| 0 <= j < i ==> (#[trigger] self@[j]).0 != id,
            decreases self@.len() - i,
        {
            if self.entries[i].0 == id {
                proof {
                    lemma_pm_find_unique(self@, id, i as int);
                }
                return i;
            }
            i = i + 1;
        }
        proof {
            if pm_find(self@, id) < self@.len() {
                assert(self@[pm_find(self@, id)].0 == id);
            }
        }
        i
    }

    pub fn contains(&self, id: u64) -> (r: bool)
        ensures
            r == pm_has(self@, id),
    {
        self.find(id) < self.entries.len()
    }

    /// The postings list for `id`, when the map has one.
    pub fn get(&self, id: u64) -> (r: Option<&Vec<Position>>)
        ensures
            r is Some <==> pm_has(self@, id),
            r is Some ==> r->Some_0@ == pm_get(self@, id),
    {
        let i = self.find(id);
        if i < self.entries.len() {
            Some(&self.entries[i].1)
        } else {
            None
        }
    }

    /// Copies the whole map.
    pub fn duplicate(&self) -> (r: PostingsMap)
        ensures
            r@ == self@,
    {
        let mut entries: Vec<(u64, Vec<Position>)> = Vec::new();
        let mut i: usize = 0;
        while i < self.entries.len()
            invariant
                i <= self@.len(),
                pm_view_of(entries@) =~= self@.take(i as int),
            decreases self@.len() - i,
        {
            let lst = copy_positions(&self.entries[i].1);
            let ghost pre = entries@;
            entries.push((self.entries[i].0, lst));
            proof {
                lemma_pm_view_push(pre, (self.entries@[i as int].0, lst));
                assert(self@.take(i + 1) =~= self@.take(i as int).push(self@[i as int]));
                assert((self@[i as int].0, lst@) == self@[i as int]);
                assert(pm_view_of(entries@) =~= self@.take(i + 1));
            }
            i = i + 1;
        }
        let r = PostingsMap { entries };
        proof {
            assert(self@.take(self@.len() as int) =~= self@);
        }
        r
    }
}

/// `pm_find` returns the first hit: any index whose entry holds `id` with
/// no earlier hit is `pm_find`'s answer.
pub proof fn lemma_pm_find_unique(v: Seq<(u64, Seq<Position>)>, id: u64, i: int)
    requires
        0 <= i < v.len(),
        v[i].0 == id,
        forall|j: int| 0 <= j < i ==> (#[trigger] v[j]).0 != id,
    ensures
        pm_find(v, id) == i,
    decreases v.len(),
{
    if v[0].0 != id {
        assert(v.drop_first()[i - 1].0 == id);
        assert forall|j: int| 0 <= j < i - 1 implies (#[trigger] v.drop_first()[j]).0 != id by {
            assert(v[j + 1].0 != id);
        }
        lemma_pm_find_unique(v.drop_first(), id, i - 1);
    }
}

/// First index of `v` whose id is at or above `id`; the length of `v`
/// when there is none.
pub open spec fn pm_lower(v: Seq<(u64, Seq<Position>)>, id: u64) -> int
    decreases v.len(),
{
    if v.len() == 0 {
        0
    } else if v[0].0 >= id {
        0
    } else {
        1 + pm_lower(v.drop_first(), id)
    }
}

pub proof fn lemma_pm_lower_props(v: Seq<(u64, Seq<Position>)>, id: u64)
    ensures
        0 <= pm_lower(v, id) <= v.len(),
        pm_lower(v, id) < v.len() ==> v[pm_lower(v, id)].0 >= id,
        forall|j: int| 0 <= j < pm_lower(v, id) ==> (#[trigger] v[j]).0 < id,
    decreases v.len(),
{
    if v.len() > 0 && v[0].0 < id {
        lemma_pm_lower_props(v.drop_first(), id);
        assert forall|j: int| 0 <= j < pm_lower(v, id) implies (#[trigger] v[j]).0 < id by {
            if j > 0 {
                assert(v.drop_first()[j - 1].0 < id);
            }
        }
    }
}

/// The map view after recording one more position for `id`: the position is
/// searched-and-coalesced into the existing list, or a fresh one-element
/// list is put at the sorted place.
pub open spec fn spec_pm_add(v: Seq<(u64, Seq<Position>)>, id: u64, p: Position) -> Seq<
    (u64, Seq<Position>),
> {
    let f = pm_find(v, id);
    if f < v.len() {
        v.update(f, (id, spec_search_coalesce(v[f].1, 0, p).0))
    } else {
        v.insert(pm_lower(v, id), (id, seq![p]))
    }
}

pub proof fn lemma_pm_view_remove(entries: Seq<(u64, Vec<Position>)>, i: int)
    requires
        0 <= i < entries.len(),
    ensures
        pm_view_of(entries.remove(i)) =~= pm_view_of(entries).remove(i),
{
    assert forall|k: int| 0 <= k < entries.len() - 1 implies #[trigger] pm_view_of(
        entries.remove(i),
    )[k] == pm_view_of(entries).remove(i)[k] by {
        if k < i {
            assert(entries.remove(i)[k] == entries[k]);
        } else {
            assert(entries.remove(i)[k] == entries[k + 1]);
        }
    }
}

pub proof fn lemma_pm_view_insert(entries: Seq<(u64, Vec<Position>)>, i: int, e: (u64, Vec<Position>))
    requires
        0 <= i <= entries.len(),
    ensures
        pm_view_of(entries.insert(i, e)) =~= pm_view_of(entries).insert(i, (e.0, e.1@)),
{
    assert forall|k: int| 0 <= k < entries.len() + 1 implies #[trigger] pm_view_of(
        entries.insert(i, e),
    )[k] == pm_view_of(entries).insert(i, (e.0, e.1@))[k] by {
        if k < i {
            assert(entries.insert(i, e)[k] == entries[k]);
        } else if k == i {
            assert(entries.insert(i, e)[k] == e);
        } else {
            assert(entries.insert(i, e)[k] == entries[k - 1]);
        }
    }
}

impl PostingsMap {
    /// First storage index whose id is at or above `id`.
    pub fn lower(&self, id: u64) -> (r: usize)
        ensures
            r as int == pm_lower(self@, id),
            r <= self@.len(),
    {
        proof {
            lemma_pm_lower_props(self@, id);
        }
        let mut i: usize = 0;
        while i < self.entries.len()
            invariant
                i <= self@.len(),
                forall|j: int| 0 <= j < i ==> (#[trigger] self@[j]).0 < id,
            decreases self@.len() - i,
        {
            if self.entries[i].0 >= id {
                proof {
                    lemma_pm_lower_unique(self@, id, i as int);
                }
                return i;
            }
            i = i + 1;
        }
        proof {
            if pm_lower(self@, id) < self@.len() {
                assert(self@[pm_lower(self@, id)].0 >= id);
            }
        }
        i
    }

    /// Records one more position for `id`, coalescing it into the existing
    /// postings list or creating a fresh one at the sorted place.
    pub fn insert_pos(&mut self, id: u64, p: Position)
        ensures
            final(self)@ == spec_pm_add(old(self)@, id, p),
    {
        let f = self.find(id);
        proof {
            lemma_pm_find_props(self@, id);
        }
        if f < self.entries.len() {
            let ghost pre = self.entries@;
            let (eid, mut lst) = self.entries.remove(f);
            let ghost mid = self.entries@;
            search_coalesce(&mut lst, 0, p);
            self.entries.insert(f, (eid, lst));
            proof {
                lemma_pm_view_remove(pre, f as int);
                lemma_pm_view_insert(mid, f as int, (eid, lst));
                assert(self@ =~= spec_pm_add(old(self)@, id, p));
            }
        } else {
            let at = self.lower(id);
            let mut lst: Vec<Position> = Vec::new();
            search_coalesce(&mut lst, 0, p);
            let ghost pre = self.entries@;
            self.entries.insert(at, (id, lst));
            proof {
                assert(lst@ =~= seq![p]);
                lemma_pm_view_insert(pre, at as int, (id, lst));
                assert(self@ =~= spec_pm_add(old(self)@, id, p));
            }
        }
    }

    /// Removes the entry for `id`, when there is one.
    pub fn remove_id(&mut self, id: u64)
        ensures
            final(self)@ == if pm_has(old(self)@, id) {
                old(self)@.remove(pm_find(old(self)@, id))
            } else {
                old(self)@
            },
    {
        let f = self.find(id);
        if f < self.entries.len() {
            let ghost pre = self.entries@;
            self.entries.remove(f);
            proof {
                lemma_pm_view_remove(pre, f as int);
                assert(final(self)@ =~= old(self)@.remove(pm_find(old(self)@, id)));
            }
        }
    }
}

pub proof fn lemma_pm_lower_unique(v: Seq<(u64, Seq<Position>)>, id: u64, i: int)
    requires
        0 <= i < v.len(),
        v[i].0 >= id,
        forall|j: int| 0 <= j < i ==> (#[trigger] v[j]).0 < id,
    ensures
        pm_lower(v, id) == i,
    decreases v.len(),
{
    if v[0].0 < id {
        assert(v.drop_first()[i - 1].0 >= id);
        assert forall|j: int| 0 <= j < i - 1 implies (#[trigger] v.drop_first()[j]).0 < id by {
            assert(v[j + 1].0 < id);
        }
        lemma_pm_lower_unique(v.drop_first(), id, i - 1);
    }
}

/// Ordered union of two postings map views: ids merge-sorted, and the two
/// lists of an id shared by both sides are combined by `merge_coalesce`.
pub open spec fn pm_union(a: Seq<(u64, Seq<Position>)>, b: Seq<(u64, Seq<Position>)>) -> Seq<
    (u64, Seq<Position>),
>
    decreases a.len() + b.len(),
{
    if a.len() == 0 {
        b
    } else if b.len() == 0 {
        a
    } else if a[0].0 < b[0].0 {
        seq![a[0]] + pm_union(a.drop_first(), b)
    } else if b[0].0 < a[0].0 {
        seq![b[0]] + pm_union(a, b.drop_first())
    } else {
        seq![(a[0].0, spec_merge_coalesce(a[0].1, 0, b[0].1).0)] + pm_union(
            a.drop_first(),
            b.drop_first(),
        )
    }
}

impl PostingsMap {
    /// Folds `other` into this map: the ordered union, with positions of a
    /// document known to both sides merge-coalesced together.
    pub fn merge_from(&mut self, other: &PostingsMap)
        requires
            pm_wf(old(self)@),
            pm_wf(other@),
        ensures
            final(self)@ == pm_union(old(self)@, other@),
    {
        let mut res: Vec<(u64, Vec<Position>)> = Vec::new();
        let mut i: usize = 0;
        let mut j: usize = 0;
        let ghost a = self@;
        let ghost b = other@;
        proof {
            assert(a.skip(0) =~= a);
            assert(b.skip(0) =~= b);
            assert(pm_view_of(res@) + pm_union(a, b) =~= pm_union(a, b));
        }
        while i < self.entries.len() || j < other.entries.len()
            invariant
                i <= a.len(),
                j <= b.len(),
                a == self@,
                b == other@,
                pm_union(a, b) =~= pm_view_of(res@) + pm_union(
                    a.skip(i as int),
                    b.skip(j as int),
                ),
            decreases (a.len() - i) + (b.len() - j),
        {
            let ghost pre = res@;
            if j >= other.entries.len() || (i < self.entries.len() && self.entries[i].0
                < other.entries[j].0) {
                let lst = copy_positions(&self.entries[i].1);
                let id = self.entries[i].0;
                res.push((id, lst));
                proof {
                    lemma_pm_view_push(pre, (id, lst));
                    assert(a.skip(i as int)[0] == a[i as int]);
                    assert(a.skip(i as int).drop_first() =~= a.skip(i + 1));
                    if j < b.len() {
                        assert(b.skip(j as int)[0] == b[j as int]);
                    } else {
                        assert(b.skip(j as int) =~= Seq::<(u64, Seq<Position>)>::empty());
                        assert(a.skip(i as int) =~= seq![a[i as int]] + a.skip(i + 1));
                    }
                    assert(pm_union(a, b) =~= pm_view_of(res@) + pm_union(
                        a.skip(i + 1),
                        b.skip(j as int),
                    ));
                }
                i = i + 1;
            } else if i >= self.entries.len() || other.entries[j].0 < self.entries[i].0 {
                let lst = copy_positions(&other.entries[j].1);
                let id = other.entries[j].0;
                res.push((id, lst));
                proof {
                    lemma_pm_view_push(pre, (id, lst));
                    assert(b.skip(j as int)[0] == b[j as int]);
                    assert(b.skip(j as int).drop_first() =~= b.skip(j + 1));
                    if i < a.len() {
                        assert(a.skip(i as int)[0] == a[i as int]);
                    } else {
                        assert(a.skip(i as int) =~= Seq::<(u64, Seq<Position>)>::empty());
                        assert(b.skip(j as int) =~= seq![b[j as int]] + b.skip(j + 1));
                    }
                    assert(pm_union(a, b) =~= pm_view_of(res@) + pm_union(
                        a.skip(i as int),
                        b.skip(j + 1),
                    ));
                }
                j = j + 1;
            } else {
                let mut lst = copy_positions(&self.entries[i].1);
                merge_coalesce(&mut lst, &other.entries[j].1);
                let id = self.entries[i].0;
                res.push((id, lst));
                proof {
                    lemma_pm_view_push(pre, (id, lst));
                    assert(a.skip(i as int)[0] == a[i as int]);
                    assert(b.skip(j as int)[0] == b[j as int]);
                    assert(a.skip(i as int).drop_first() =~= a.skip(i + 1));
                    assert(b.skip(j as int).drop_first() =~= b.skip(j + 1));
                    assert(pm_union(a, b) =~= pm_view_of(res@) + pm_union(
                        a.skip(i + 1),
                        b.skip(j + 1),
                    ));
                }
                i = i + 1;
                j = j + 1;
            }
        }
        self.entries = res;
        proof {
            assert(a.skip(a.len() as int) =~= Seq::<(u64, Seq<Position>)>::empty());
            assert(b.skip(b.len() as int) =~= Seq::<(u64, Seq<Position>)>::empty());
            assert(pm_view_of(res@) + pm_union(
                Seq::<(u64, Seq<Position>)>::empty(),
                Seq::<(u64, Seq<Position>)>::empty(),
            ) =~= pm_view_of(res@));
            assert(final(self)@ =~= pm_union(a, b));
        }
    }
}

/// How `pm_find`, `pm_has` and `pm_get` act on a map view with its first
/// entry split off.
pub proof fn lemma_pm_cons(h: (u64, Seq<Position>), t: Seq<(u64, Seq<Position>)>, id: u64)
    ensures
        pm_find(seq![h] + t, id) == if h.0 == id {
            0int
        } else {
            1 + pm_find(t, id)
        },
        pm_has(seq![h] + t, id) == (h.0 == id || pm_has(t, id)),
        pm_has(seq![h] + t, id) ==> pm_get(seq![h] + t, id) == if h.0 == id {
            h.1
        } else {
            pm_get(t, id)
        },
{
    let u = seq![h] + t;
    assert(u[0] == h);
    assert(u.drop_first() =~= t);
    lemma_pm_find_props(t, id);
    if h.0 != id && pm_has(t, id) {
        assert(u[1 + pm_find(t, id)] == t[pm_find(t, id)]);
    }
}

/// In a well-formed map view every recorded id is at least the first one.
pub proof fn lemma_pm_has_min(v: Seq<(u64, Seq<Position>)>, id: u64)
    requires
        pm_wf(v),
        pm_has(v, id),
    ensures
        v.len() > 0 && id >= v[0].0,
{
    lemma_pm_find_props(v, id);
}

pub proof fn lemma_pm_wf_drop(v: Seq<(u64, Seq<Position>)>)
    requires
        pm_wf(v),
        v.len() > 0,
    ensures
        pm_wf(v.drop_first()),
{
    assert forall|i: int, j: int|
        0 <= i < j < v.drop_first().len() implies (#[trigger] v.drop_first()[i]).0
        < (#[trigger] v.drop_first()[j]).0 by {
        assert(v[i + 1].0 < v[j + 1].0);
    }
}

/// The union of two well-formed maps is well-formed, holds exactly the ids
/// of the two sides, and maps each id to its list on the side that has it,
/// with the two lists merge-coalesced when both sides do.
pub proof fn lemma_pm_union_props(a: Seq<(u64, Seq<Position>)>, b: Seq<(u64, Seq<Position>)>)
    requires
        pm_wf(a),
        pm_wf(b),
    ensures
        pm_wf(pm_union(a, b)),
        forall|id: u64| pm_has(#[trigger] pm_union(a, b), id) <==> (pm_has(a, id) || pm_has(b, id)),
        forall|id: u64|
            pm_has(a, id) && pm_has(b, id) ==> pm_get(#[trigger] pm_union(a, b), id)
                == spec_merge_coalesce(pm_get(a, id), 0, pm_get(b, id)).0,
        forall|id: u64|
            pm_has(a, id) && !pm_has(b, id) ==> pm_get(#[trigger] pm_union(a, b), id) == pm_get(
                a,
                id,
            ),
        forall|id: u64|
            !pm_has(a, id) && pm_has(b, id) ==> pm_get(#[trigger] pm_union(a, b), id) == pm_get(
                b,
                id,
            ),
    decreases a.len() + b.len(),
{
    let u = pm_union(a, b);
    if a.len() == 0 || b.len() == 0 {
    } else {
        lemma_pm_wf_drop(a);
        lemma_pm_wf_drop(b);
        if a[0].0 < b[0].0 {
            lemma_pm_union_props(a.drop_first(), b);
            lemma_pm_union_cons_case(a, b, a[0], pm_union(a.drop_first(), b));
        } else if b[0].0 < a[0].0 {
            lemma_pm_union_props(a, b.drop_first());
            lemma_pm_union_cons_case_right(a, b, b[0], pm_union(a, b.drop_first()));
        } else {
            lemma_pm_union_props(a.drop_first(), b.drop_first());
            lemma_pm_union_cons_case_both(
                a,
                b,
                (a[0].0, spec_merge_coalesce(a[0].1, 0, b[0].1).0),
                pm_union(a.drop_first(), b.drop_first()),
            );
        }
    }
}

/// The left-head step of the union proof: `u = cons(a[0], union(a\', b))`.
proof fn lemma_pm_union_cons_case(
    a: Seq<(u64, Seq<Position>)>,
    b: Seq<(u64, Seq<Position>)>,
    h: (u64, Seq<Position>),
    rest: Seq<(u64, Seq<Position>)>,
)
    requires
        pm_wf(a),
        pm_wf(b),
        a.len() > 0,
        b.len() > 0,
        a[0].0 < b[0].0,
        h == a[0],
        rest == pm_union(a.drop_first(), b),
        pm_wf(rest),
        forall|id: u64|
            pm_has(rest, id) <==> (pm_has(a.drop_first(), id) || pm_has(b, id)),
        forall|id: u64|
            pm_has(a.drop_first(), id) && pm_has(b, id) ==> pm_get(rest, id)
                == spec_merge_coalesce(pm_get(a.drop_first(), id), 0, pm_get(b, id)).0,
        forall|id: u64|
            pm_has(a.drop_first(), id) && !pm_has(b, id) ==> pm_get(rest, id) == pm_get(
                a.drop_first(),
                id,
            ),
        forall|id: u64|
            !pm_has(a.drop_first(), id) && pm_has(b, id) ==> pm_get(rest, id) == pm_get(b, id),
    ensures
        pm_wf(pm_union(a, b)),
        forall|id: u64| pm_has(#[trigger] pm_union(a, b), id) <==> (pm_has(a, id) || pm_has(b, id)),
        forall|id: u64|
            pm_has(a, id) && pm_has(b, id) ==> pm_get(#[trigger] pm_union(a, b), id)
                == spec_merge_coalesce(pm_get(a, id), 0, pm_get(b, id)).0,
        forall|id: u64|
            pm_has(a, id) && !pm_has(b, id) ==> pm_get(#[trigger] pm_union(a, b), id) == pm_get(
                a,
                id,
            ),
        forall|id: u64|
            !pm_has(a, id) && pm_has(b, id) ==> pm_get(#[trigger] pm_union(a, b), id) == pm_get(
                b,
                id,
            ),
{
    let u = pm_union(a, b);
    assert(u == seq![h] + rest);
    assert(u[0] == h);
    assert(u.drop_first() =~= rest);
    // every id in `rest` is above the head id
    assert forall|k: int| 0 <= k < rest.len() implies (#[trigger] rest[k]).0 > h.0 by {
        lemma_pm_entry_has(rest, k);
        if pm_has(a.drop_first(), rest[k].0) {
            lemma_pm_has_min(a.drop_first(), rest[k].0);
            assert(a.drop_first()[0] == a[1]);
        } else {
            lemma_pm_has_min(b, rest[k].0);
        }
    }
    assert forall|i: int, j: int| 0 <= i < j < u.len() implies (#[trigger] u[i]).0
        < (#[trigger] u[j]).0 by {
        if i > 0 {
            assert(u[i] == rest[i - 1] && u[j] == rest[j - 1]);
        } else {
            assert(u[j] == rest[j - 1]);
        }
    }
    assert forall|id: u64| true implies (pm_has(#[trigger] pm_union(a, b), id) <==> (pm_has(a, id)
        || pm_has(b, id))) && (pm_has(a, id) && pm_has(b, id) ==> pm_get(pm_union(a, b), id)
        == spec_merge_coalesce(pm_get(a, id), 0, pm_get(b, id)).0) && (pm_has(a, id) && !pm_has(
        b,
        id,
    ) ==> pm_get(pm_union(a, b), id) == pm_get(a, id)) && (!pm_has(a, id) && pm_has(b, id)
        ==> pm_get(pm_union(a, b), id) == pm_get(b, id)) by {
        lemma_pm_cons(h, rest, id);
        lemma_pm_cons(a[0], a.drop_first(), id);
        assert(seq![a[0]] + a.drop_first() =~= a);
        if id == h.0 {
            if pm_has(b, id) {
                lemma_pm_has_min(b, id);
            }
        }
    }
}

/// The right-head step of the union proof, symmetric to the left one.
proof fn lemma_pm_union_cons_case_right(
    a: Seq<(u64, Seq<Position>)>,
    b: Seq<(u64, Seq<Position>)>,
    h: (u64, Seq<Position>),
    rest: Seq<(u64, Seq<Position>)>,
)
    requires
        pm_wf(a),
        pm_wf(b),
        a.len() > 0,
        b.len() > 0,
        b[0].0 < a[0].0,
        h == b[0],
        rest == pm_union(a, b.drop_first()),
        pm_wf(rest),
        forall|id: u64|
            pm_has(rest, id) <==> (pm_has(a, id) || pm_has(b.drop_first(), id)),
        forall|id: u64|
            pm_has(a, id) && pm_has(b.drop_first(), id) ==> pm_get(rest, id)
                == spec_merge_coalesce(pm_get(a, id), 0, pm_get(b.drop_first(), id)).0,
        forall|id: u64|
            pm_has(a, id) && !pm_has(b.drop_first(), id) ==> pm_get(rest, id) == pm_get(a, id),
        forall|id: u64|
            !pm_has(a, id) && pm_has(b.drop_first(), id) ==> pm_get(rest, id) == pm_get(
                b.drop_first(),
                id,
            ),
    ensures
        pm_wf(pm_union(a, b)),
        forall|id: u64| pm_has(#[trigger] pm_union(a, b), id) <==> (pm_has(a, id) || pm_has(b, id)),
        forall|id: u64|
            pm_has(a, id) && pm_has(b, id) ==> pm_get(#[trigger] pm_union(a, b), id)
                == spec_merge_coalesce(pm_get(a, id), 0, pm_get(b, id)).0,
        forall|id: u64|
            pm_has(a, id) && !pm_has(b, id) ==> pm_get(#[trigger] pm_union(a, b), id) == pm_get(
                a,
                id,
            ),
        forall|id: u64|
            !pm_has(a, id) && pm_has(b, id) ==> pm_get(#[trigger] pm_union(a, b), id) == pm_get(
                b,
                id,
            ),
{
    let u = pm_union(a, b);
    assert(u == seq![h] + rest);
    assert(u[0] == h);
    assert(u.drop_first() =~= rest);
    assert forall|k: int| 0 <= k < rest.len() implies (#[trigger] rest[k]).0 > h.0 by {
        lemma_pm_entry_has(rest, k);
        if pm_has(a, rest[k].0) {
            lemma_pm_has_min(a, rest[k].0);
        } else {
            lemma_pm_has_min(b.drop_first(), rest[k].0);
            assert(b.drop_first()[0] == b[1]);
        }
    }
    assert forall|i: int, j: int| 0 <= i < j < u.len() implies (#[trigger] u[i]).0
        < (#[trigger] u[j]).0 by {
        if i > 0 {
            assert(u[i] == rest[i - 1] && u[j] == rest[j - 1]);
        } else {
            assert(u[j] == rest[j - 1]);
        }
    }
    assert forall|id: u64| true implies (pm_has(#[trigger] pm_union(a, b), id) <==> (pm_has(a, id)
        || pm_has(b, id))) && (pm_has(a, id) && pm_has(b, id) ==> pm_get(pm_union(a, b), id)
        == spec_merge_coalesce(pm_get(a, id), 0, pm_get(b, id)).0) && (pm_has(a, id) && !pm_has(
        b,
        id,
    ) ==> pm_get(pm_union(a, b), id) == pm_get(a, id)) && (!pm_has(a, id) && pm_has(b, id)
        ==> pm_get(pm_union(a, b), id) == pm_get(b, id)) by {
        lemma_pm_cons(h, rest, id);
        lemma_pm_cons(b[0], b.drop_first(), id);
        assert(seq![b[0]] + b.drop_first() =~= b);
        if id == h.0 {
            if pm_has(a, id) {
                lemma_pm_has_min(a, id);
            }
        }
    }
}

/// The equal-heads step of the union proof: the two head lists are
/// merge-coalesced.
proof fn lemma_pm_union_cons_case_both(
    a: Seq<(u64, Seq<Position>)>,
    b: Seq<(u64, Seq<Position>)>,
    h: (u64, Seq<Position>),
    rest: Seq<(u64, Seq<Position>)>,
)
    requires
        pm_wf(a),
        pm_wf(b),
        a.len() > 0,
        b.len() > 0,
        a[0].0 == b[0].0,
        h == (a[0].0, spec_merge_coalesce(a[0].1, 0, b[0].1).0),
        rest == pm_union(a.drop_first(), b.drop_first()),
        pm_wf(rest),
        forall|id: u64|
            pm_has(rest, id) <==> (pm_has(a.drop_first(), id) || pm_has(b.drop_first(), id)),
        forall|id: u64|
            pm_has(a.drop_first(), id) && pm_has(b.drop_first(), id) ==> pm_get(rest, id)
                == spec_merge_coalesce(
                pm_get(a.drop_first(), id),
                0,
                pm_get(b.drop_first(), id),
            ).0,
        forall|id: u64|
            pm_has(a.drop_first(), id) && !pm_has(b.drop_first(), id) ==> pm_get(rest, id)
                == pm_get(a.drop_first(), id),
        forall|id: u64|
            !pm_has(a.drop_first(), id) && pm_has(b.drop_first(), id) ==> pm_get(rest, id)
                == pm_get(b.drop_first(), id),
    ensures
        pm_wf(pm_union(a, b)),
        forall|id: u64| pm_has(#[trigger] pm_union(a, b), id) <==> (pm_has(a, id) || pm_has(b, id)),
        forall|id: u64|
            pm_has(a, id) && pm_has(b, id) ==> pm_get(#[trigger] pm_union(a, b), id)
                == spec_merge_coalesce(pm_get(a, id), 0, pm_get(b, id)).0,
        forall|id: u64|
            pm_has(a, id) && !pm_has(b, id) ==> pm_get(#[trigger] pm_union(a, b), id) == pm_get(
                a,
                id,
            ),
        forall|id: u64|
            !pm_has(a, id) && pm_has(b, id) ==> pm_get(#[trigger] pm_union(a, b), id) == pm_get(
                b,
                id,
            ),
{
    let u = pm_union(a, b);
    assert(u == seq![h] + rest);
    assert(u[0] == h);
    assert(u.drop_first() =~= rest);
    assert forall|k: int| 0 <= k < rest.len() implies (#[trigger] rest[k]).0 > h.0 by {
        lemma_pm_entry_has(rest, k);
        if pm_has(a.drop_first(), rest[k].0) {
            lemma_pm_has_min(a.drop_first(), rest[k].0);
            assert(a.drop_first()[0] == a[1]);
        } else {
            lemma_pm_has_min(b.drop_first(), rest[k].0);
            assert(b.drop_first()[0] == b[1]);
        }
    }
    assert forall|i: int, j: int| 0 <= i < j < u.len() implies (#[trigger] u[i]).0
        < (#[trigger] u[j]).0 by {
        if i > 0 {
            assert(u[i] == rest[i - 1] && u[j] == rest[j - 1]);
        } else {
            assert(u[j] == rest[j - 1]);
        }
    }
    assert forall|id: u64| true implies (pm_has(#[trigger] pm_union(a, b), id) <==> (pm_has(a, id)
        || pm_has(b, id))) && (pm_has(a, id) && pm_has(b, id) ==> pm_get(pm_union(a, b), id)
        == spec_merge_coalesce(pm_get(a, id), 0, pm_get(b, id)).0) && (pm_has(a, id) && !pm_has(
        b,
        id,
    ) ==> pm_get(pm_union(a, b), id) == pm_get(a, id)) && (!pm_has(a, id) && pm_has(b, id)
        ==> pm_get(pm_union(a, b), id) == pm_get(b, id)) by {
        lemma_pm_cons(h, rest, id);
        lemma_pm_cons(a[0], a.drop_first(), id);
        lemma_pm_cons(b[0], b.drop_first(), id);
        assert(seq![a[0]] + a.drop_first() =~= a);
        assert(seq![b[0]] + b.drop_first() =~= b);
    }
}

/// Every stored entry's id is recorded in the map view.
pub proof fn lemma_pm_entry_has(v: Seq<(u64, Seq<Position>)>, k: int)
    requires
        0 <= k < v.len(),
    ensures
        pm_has(v, v[k].0),
{
    lemma_pm_has(v, v[k].0);
}

/// The ids of a map view, as a set.
pub open spec fn pm_ids_set(v: Seq<(u64, Seq<Position>)>) -> Set<u64> {
    Set::new(|id: u64| pm_has(v, id))
}

/// Whether every map of the family records `id`.
pub open spec fn all_have(maps: Seq<PostingsMap>, id: u64) -> bool {
    forall|k: int| 0 <= k < maps.len() ==> pm_has((#[trigger] maps[k])@, id)
}

/// The ascending sequence of document ids present in every one of the maps.
///
/// The result is strictly increasing and holds an id exactly when each map
/// of the family records it: the set-theoretic intersection of the maps\'
/// key sets, in ascending order.
pub fn intersect_ids(maps: &Vec<PostingsMap>) -> (r: Vec<u64>)
    requires
        maps@.len() > 0,
        forall|k: int| 0 <= k < maps@.len() ==> (#[trigger] maps@[k]).wf(),
    ensures
        forall|x: int, y: int| 0 <= x < y < r@.len() ==> r@[x] < r@[y],
        forall|id: u64| r@.contains(id) <==> all_have(maps@, id),
{
    let first = &maps[0];
    let mut r: Vec<u64> = Vec::new();
    let mut i: usize = 0;
    while i < first.len()
        invariant
            maps@.len() > 0,
            first == maps@[0],
            forall|k: int| 0 <= k < maps@.len() ==> (#[trigger] maps@[k]).wf(),
            i <= first@.len(),
            forall|x: int, y: int| 0 <= x < y < r@.len() ==> r@[x] < r@[y],
            forall|x: int|
                0 <= x < r@.len() ==> exists|w: int|
                    0 <= w < i && (#[trigger] first@[w]).0 == #[trigger] r@[x],
            forall|id: u64|
                r@.contains(id) <==> (exists|w: int|
                    0 <= w < i && (#[trigger] first@[w]).0 == id) && all_have(maps@, id),
        decreases first@.len() - i,
    {
        let id = first.id_at(i);
        proof {
            lemma_pm_entry_has(first@, i as int);
        }
        let mut all: bool = true;
        let mut k: usize = 1;
        while k < maps.len() && all
            invariant
                1 <= k <= maps@.len(),
                all ==> forall|q: int| 0 <= q < k ==> pm_has((#[trigger] maps@[q])@, id),
                !all ==> exists|q: int| 0 <= q < maps@.len() && !pm_has((#[trigger] maps@[q])@, id),
                maps@.len() > 0,
                first == maps@[0],
            decreases maps@.len() - k,
        {
            if !maps[k].contains(id) {
                all = false;
            }
            k = k + 1;
        }
        if all {
            let ghost pre = r@;
            r.push(id);
            proof {
                assert(first@[i as int].0 == id);
                // the new id is above everything already collected
                assert forall|x: int| 0 <= x < pre.len() implies pre[x] < id by {
                    let w = choose|w: int| 0 <= w < i && (#[trigger] first@[w]).0 == pre[x];
                    assert(first@[w].0 < first@[i as int].0);
                }
                assert forall|q: u64| r@.contains(q) implies ((exists|w: int|
                    0 <= w < i + 1 && (#[trigger] first@[w]).0 == q) && all_have(maps@, q)) by {
                    if q != id {
                        assert(pre.contains(q));
                    }
                }
                assert forall|q: u64|
                    ((exists|w: int| 0 <= w < i + 1 && (#[trigger] first@[w]).0 == q) && all_have(
                        maps@,
                        q,
                    )) implies r@.contains(q) by {
                    if q != id {
                        assert(pre.contains(q));
                        let x = choose|x: int| 0 <= x < pre.len() && pre[x] == q;
                        assert(r@[x] == q);
                    } else {
                        assert(r@[pre.len() as int] == id);
                    }
                }
            }
        } else {
            proof {
                assert forall|q: u64| r@.contains(q) implies ((exists|w: int|
                    0 <= w < i + 1 && (#[trigger] first@[w]).0 == q) && all_have(maps@, q)) by {}
                assert forall|q: u64|
                    ((exists|w: int| 0 <= w < i + 1 && (#[trigger] first@[w]).0 == q) && all_have(
                        maps@,
                        q,
                    )) implies r@.contains(q) by {
                    if q == id {
                        assert(!all_have(maps@, q));
                    } else {
                        let w = choose|w: int| 0 <= w < i + 1 && (#[trigger] first@[w]).0 == q;
                        assert(w < i || first@[w].0 == id);
                    }
                }
            }
        }
        i = i + 1;
    }
    proof {
        lemma_pm_has(first@, 0);
        assert forall|id: u64| r@.contains(id) <==> all_have(maps@, id) by {
            lemma_pm_has(first@, id);
            if all_have(maps@, id) {
                assert(pm_has(maps@[0]@, id));
            }
        }
    }
    r
}

/// The positions of document `id` folded together across maps `0..k` of a
/// family: the first map\'s list, with each later one merge-coalesced in.
pub open spec fn spec_and_positions(maps: Seq<PostingsMap>, id: u64, k: int) -> Seq<Position>
    recommends
        1 <= k <= maps.len(),
    decreases k,
{
    if k <= 1 {
        pm_get(maps[0]@, id)
    } else {
        spec_merge_coalesce(spec_and_positions(maps, id, k - 1), 0, pm_get(maps[k - 1]@, id)).0
    }
}

/// Intersects a family of postings maps by document id: the result holds
/// exactly the documents present in every map, each with the positions of
/// all the maps merge-coalesced together.  An empty family gives an empty
/// map; a single map is returned unchanged.
pub fn intersect_postings(maps: &Vec<PostingsMap>) -> (r: PostingsMap)
    requires
        forall|k: int| 0 <= k < maps@.len() ==> (#[trigger] maps@[k]).wf(),
    ensures
        r.wf(),
        maps@.len() == 0 ==> r@.len() == 0,
        maps@.len() == 1 ==> r@ == maps@[0]@,
        maps@.len() > 1 ==> forall|id: u64| pm_has(r@, id) <==> all_have(maps@, id),
        maps@.len() > 1 ==> forall|id: u64|
            pm_has(r@, id) ==> pm_get(r@, id) == spec_and_positions(maps@, id, maps@.len() as int),
    decreases maps@.len(),
{
    if maps.len() == 0 {
        return PostingsMap::new();
    }
    if maps.len() == 1 {
        return maps[0].duplicate();
    }
    let ids = intersect_ids(maps);
    let mut entries: Vec<(u64, Vec<Position>)> = Vec::new();
    let mut x: usize = 0;
    while x < ids.len()
        invariant
            forall|k: int| 0 <= k < maps@.len() ==> (#[trigger] maps@[k]).wf(),
            maps@.len() > 1,
            x <= ids@.len(),
            forall|a: int, b: int| 0 <= a < b < ids@.len() ==> ids@[a] < ids@[b],
            forall|id: u64| ids@.contains(id) <==> all_have(maps@, id),
            pm_view_of(entries@) =~= Seq::new(x as nat, |w: int| (ids@[w], spec_and_positions(
                maps@,
                ids@[w],
                maps@.len() as int,
            ))),
        decreases ids@.len() - x,
    {
        let id = ids[x];
        proof {
            assert(ids@.contains(id)) by {
                assert(ids@[x as int] == id);
            }
        }
        let l0 = match maps[0].get(id) {
            Some(l) => l,
            None => { proof { assert(false); } vstd::pervasive::unreached() },
        };
        let mut positions = copy_positions(l0);
        let mut k: usize = 1;
        while k < maps.len()
            invariant
                forall|q: int| 0 <= q < maps@.len() ==> (#[trigger] maps@[q]).wf(),
                maps@.len() > 1,
                1 <= k <= maps@.len(),
                all_have(maps@, id),
                positions@ == spec_and_positions(maps@, id, k as int),
            decreases maps@.len() - k,
        {
            let lk = match maps[k].get(id) {
                Some(l) => l,
                None => { proof { assert(false); } vstd::pervasive::unreached() },
            };
            merge_coalesce(&mut positions, lk);
            k = k + 1;
        }
        let ghost pre = entries@;
        entries.push((id, positions));
        proof {
            lemma_pm_view_push(pre, (id, positions));
            assert(pm_view_of(entries@) =~= Seq::new((x + 1) as nat, |w: int| (ids@[w],
            spec_and_positions(maps@, ids@[w], maps@.len() as int))));
        }
        x = x + 1;
    }
    let r = PostingsMap { entries };
    proof {
        assert forall|id: u64| pm_has(r@, id) implies all_have(maps@, id) by {
            lemma_pm_has(r@, id);
            let w = choose|w: int| 0 <= w < r@.len() && r@[w].0 == id;
            assert(ids@[w] == id);
            assert(ids@.contains(id));
        }
        assert forall|id: u64| all_have(maps@, id) implies pm_has(r@, id) by {
            assert(ids@.contains(id));
            let w = choose|w: int| 0 <= w < ids@.len() && ids@[w] == id;
            assert(r@[w].0 == id);
            lemma_pm_entry_has(r@, w);
        }
        assert forall|id: u64| pm_has(r@, id) implies pm_get(r@, id) == spec_and_positions(
            maps@,
            id,
            maps@.len() as int,
        ) by {
            lemma_pm_find_props(r@, id);
            let f = pm_find(r@, id);
            assert(r@[f].0 == id);
            assert(ids@[f] == id);
            assert(r@[f].1 == spec_and_positions(maps@, ids@[f], maps@.len() as int));
        }
        assert forall|i: int, j: int| 0 <= i < j < r@.len() implies (#[trigger] r@[i]).0
            < (#[trigger] r@[j]).0 by {
            assert(ids@[i] < ids@[j]);
        }
    }
    r
}

/// The positional intersection of two position lists, walked with two
/// cursors: when a left position is exactly one token before the right
/// cursor\'s position, both are emitted (suppressing an immediate duplicate
/// of the left one) and the right cursor advances; the left cursor always
/// advances on a strictly smaller token position, the right one otherwise.
pub open spec fn spec_positional(
    l: Seq<Position>,
    r: Seq<Position>,
    i: int,
    j: int,
    acc: Seq<Position>,
) -> Seq<Position>
    recommends
        0 <= i,
        0 <= j,
    decreases l.len() - i, r.len() - j,
{
    if i < 0 || j < 0 || i >= l.len() || j >= r.len() {
        acc
    } else if l[i].position < r[j].position {
        if l[i].position + 1 == r[j].position {
            let acc2 = if acc.len() > 0 && acc.last() == l[i] {
                acc
            } else {
                acc.push(l[i])
            };
            spec_positional(l, r, i + 1, j + 1, acc2.push(r[j]))
        } else {
            spec_positional(l, r, i + 1, j, acc)
        }
    } else {
        spec_positional(l, r, i, j + 1, acc)
    }
}

/// Intersects two position lists positionally: the emitted positions are
/// the adjacent (left, right) token pairs as `spec_positional` describes.
pub fn positional_intersect(l: &Vec<Position>, r: &Vec<Position>) -> (res: Vec<Position>)
    ensures
        res@ == spec_positional(l@, r@, 0, 0, Seq::<Position>::empty()),
{
    let mut res: Vec<Position> = Vec::new();
    let mut i: usize = 0;
    let mut j: usize = 0;
    while i < l.len() && j < r.len()
        invariant
            i <= l@.len(),
            j <= r@.len(),
            spec_positional(l@, r@, 0, 0, Seq::<Position>::empty()) == spec_positional(
                l@,
                r@,
                i as int,
                j as int,
                res@,
            ),
        decreases (l@.len() - i) + (r@.len() - j),
    {
        let lp = l[i];
        let rp = r[j];
        if lp.position < rp.position {
            if rp.position == lp.position + 1 {
                let mut push_left: bool = true;
                if res.len() > 0 {
                    let last = res[res.len() - 1];
                    if last.offsets.0 == lp.offsets.0 && last.offsets.1 == lp.offsets.1
                        && last.position == lp.position {
                        push_left = false;
                    }
                }
                proof {
                    if res@.len() > 0 {
                        assert(res@.last() == res@[res@.len() - 1]);
                    }
                }
                if push_left {
                    res.push(lp);
                }
                res.push(rp);
                j = j + 1;
            }
            i = i + 1;
        } else {
            j = j + 1;
        }
    }
    res
}

/// The positional intersection of two postings maps: the documents known
/// to both sides, in the left map\'s order, each with the positional
/// intersection of its two lists.
pub open spec fn pm_pos_inter(a: Seq<(u64, Seq<Position>)>, b: Seq<(u64, Seq<Position>)>) -> Seq<
    (u64, Seq<Position>),
>
    decreases a.len(),
{
    if a.len() == 0 {
        a
    } else {
        (if pm_has(b, a[0].0) {
            seq![
                (a[0].0, spec_positional(a[0].1, pm_get(b, a[0].0), 0, 0, Seq::<Position>::empty())),
            ]
        } else {
            Seq::<(u64, Seq<Position>)>::empty()
        }) + pm_pos_inter(a.drop_first(), b)
    }
}

/// For well-formed maps the positional intersection is well-formed, holds
/// exactly the shared ids, and maps each to the positional intersection of
/// the two lists.
pub proof fn lemma_pm_pos_inter_props(a: Seq<(u64, Seq<Position>)>, b: Seq<(u64, Seq<Position>)>)
    requires
        pm_wf(a),
        pm_wf(b),
    ensures
        pm_wf(pm_pos_inter(a, b)),
        forall|id: u64|
            pm_has(#[trigger] pm_pos_inter(a, b), id) <==> (pm_has(a, id) && pm_has(b, id)),
        forall|id: u64|
            pm_has(#[trigger] pm_pos_inter(a, b), id) ==> pm_get(pm_pos_inter(a, b), id)
                == spec_positional(pm_get(a, id), pm_get(b, id), 0, 0, Seq::<Position>::empty()),
    decreases a.len(),
{
    let u = pm_pos_inter(a, b);
    if a.len() == 0 {
    } else {
        lemma_pm_wf_drop(a);
        let rest = pm_pos_inter(a.drop_first(), b);
        lemma_pm_pos_inter_props(a.drop_first(), b);
        assert(seq![a[0]] + a.drop_first() =~= a);
        assert forall|k: int| 0 <= k < rest.len() implies (#[trigger] rest[k]).0 > a[0].0 by {
            lemma_pm_entry_has(rest, k);
            lemma_pm_has_min(a.drop_first(), rest[k].0);
            assert(a.drop_first()[0] == a[1]);
        }
        if pm_has(b, a[0].0) {
            let h = (a[0].0, spec_positional(a[0].1, pm_get(b, a[0].0), 0, 0, Seq::<
                Position,
            >::empty()));
            assert(u == seq![h] + rest);
            assert(u[0] == h);
            assert(u.drop_first() =~= rest);
            assert forall|i: int, j: int| 0 <= i < j < u.len() implies (#[trigger] u[i]).0
                < (#[trigger] u[j]).0 by {
                if i > 0 {
                    assert(u[i] == rest[i - 1] && u[j] == rest[j - 1]);
                } else {
                    assert(u[j] == rest[j - 1]);
                }
            }
            assert forall|id: u64| true implies ((pm_has(u, id) <==> (pm_has(a, id) && pm_has(
                b,
                id,
            ))) && (pm_has(u, id) ==> pm_get(u, id) == spec_positional(
                pm_get(a, id),
                pm_get(b, id),
                0,
                0,
                Seq::<Position>::empty(),
            ))) by {
                lemma_pm_cons(h, rest, id);
                lemma_pm_cons(a[0], a.drop_first(), id);
            }
        } else {
            assert(u =~= rest);
            assert forall|id: u64| true implies ((pm_has(u, id) <==> (pm_has(a, id) && pm_has(
                b,
                id,
            ))) && (pm_has(u, id) ==> pm_get(u, id) == spec_positional(
                pm_get(a, id),
                pm_get(b, id),
                0,
                0,
                Seq::<Position>::empty(),
            ))) by {
                lemma_pm_cons(a[0], a.drop_first(), id);
                if id == a[0].0 && pm_has(a.drop_first(), id) {
                    lemma_pm_has_min(a.drop_first(), id);
                    assert(a.drop_first()[0] == a[1]);
                }
            }
        }
    }
}

impl PostingsMap {
    /// Intersects two postings maps positionally: the documents known to
    /// both sides, each with the positional intersection of its two lists.
    /// A document common to both sides stays present even when the
    /// positional intersection of its lists is empty.
    pub fn intersect_positionally(&self, other: &PostingsMap) -> (r: PostingsMap)
        requires
            self.wf(),
            other.wf(),
        ensures
            r@ == pm_pos_inter(self@, other@),
            r.wf(),
            forall|id: u64| pm_has(r@, id) <==> (pm_has(self@, id) && pm_has(other@, id)),
            forall|id: u64|
                pm_has(r@, id) ==> pm_get(r@, id) == spec_positional(
                    pm_get(self@, id),
                    pm_get(other@, id),
                    0,
                    0,
                    Seq::<Position>::empty(),
                ),
    {
        let ghost a = self@;
        let ghost b = other@;
        let mut entries: Vec<(u64, Vec<Position>)> = Vec::new();
        let mut i: usize = 0;
        proof {
            assert(a.skip(0) =~= a);
            assert(pm_view_of(entries@) + pm_pos_inter(a, b) =~= pm_pos_inter(a, b));
        }
        while i < self.entries.len()
            invariant
                a == self@,
                b == other@,
                i <= a.len(),
                pm_view_of(entries@) + pm_pos_inter(a.skip(i as int), b) =~= pm_pos_inter(a, b),
            decreases a.len() - i,
        {
            let id = self.entries[i].0;
            let ghost pre = entries@;
            proof {
                assert(a.skip(i as int)[0] == a[i as int]);
                assert(a.skip(i as int).drop_first() =~= a.skip(i as int + 1));
                assert(a[i as int].0 == id);
            }
            if let Some(olist) = other.get(id) {
                let lst = positional_intersect(&self.entries[i].1, olist);
                entries.push((id, lst));
                proof {
                    lemma_pm_view_push(pre, (id, lst));
                    assert(a[i as int].1 == self.entries@[i as int].1@);
                    assert(pm_view_of(entries@) + pm_pos_inter(a.skip(i as int + 1), b)
                        =~= pm_pos_inter(a, b));
                }
            } else {
                proof {
                    assert(pm_view_of(entries@) + pm_pos_inter(a.skip(i as int + 1), b)
                        =~= pm_pos_inter(a, b));
                }
            }
            i = i + 1;
        }
        let ghost ev = pm_view_of(entries@);
        let r = PostingsMap { entries };
        proof {
            assert(a.skip(a.len() as int) =~= Seq::<(u64, Seq<Position>)>::empty());
            assert(r@ == ev);
            assert(r@ =~= pm_pos_inter(a, b));
            lemma_pm_pos_inter_props(a, b);
        }
        r
    }
}

/// In a well-formed map view an id appears at exactly one index: the one
/// `pm_find` answers.
pub proof fn lemma_pm_at_find(v: Seq<(u64, Seq<Position>)>, k: int)
    requires
        pm_wf(v),
        0 <= k < v.len(),
    ensures
        pm_find(v, v[k].0) == k,
{
    lemma_pm_find_props(v, v[k].0);
    let f = pm_find(v, v[k].0);
    if f < k {
        assert(v[f].0 < v[k].0);
    }
    if f > k {
        assert(v[k].0 != v[k].0) by {
            assert(forall|j: int| 0 <= j < f ==> (#[trigger] v[j]).0 != v[k].0);
        }
    }
}

/// Removing the entry of `id` from a well-formed map drops exactly that id
/// and leaves every other entry in place.
pub proof fn lemma_pm_remove_props(v: Seq<(u64, Seq<Position>)>, id: u64)
    requires
        pm_wf(v),
        pm_has(v, id),
    ensures
        pm_wf(v.remove(pm_find(v, id))),
        forall|q: u64|
            pm_has(#[trigger] v.remove(pm_find(v, id)), q) <==> (pm_has(v, q) && q != id),
        forall|q: u64|
            pm_has(#[trigger] v.remove(pm_find(v, id)), q) ==> pm_get(v.remove(pm_find(v, id)), q)
                == pm_get(v, q),
    {
    let f = pm_find(v, id);
    lemma_pm_find_props(v, id);
    let v2 = v.remove(f);
    assert forall|i: int, j: int| 0 <= i < j < v2.len() implies (#[trigger] v2[i]).0
        < (#[trigger] v2[j]).0 by {
        let i2: int = if i < f { i } else { i + 1 };
        let j2: int = if j < f { j } else { j + 1 };
        assert(v2[i] == v[i2] && v2[j] == v[j2]);
    }
    assert forall|q: u64| true implies (pm_has(v2, q) <==> (pm_has(v, q) && q != id)) && (pm_has(
        v2,
        q,
    ) ==> pm_get(v2, q) == pm_get(v, q)) by {
        lemma_pm_has(v, q);
        lemma_pm_has(v2, q);
        if pm_has(v2, q) {
            let k2 = pm_find(v2, q);
            lemma_pm_find_props(v2, q);
            let k: int = if k2 < f { k2 } else { k2 + 1 };
            assert(v2[k2] == v[k]);
            lemma_pm_at_find(v, k);
            assert(pm_has(v, q));
            assert(q != id) by {
                if q == id {
                    lemma_pm_at_find(v, f);
                    assert(k == f);
                }
            }
            assert(pm_get(v2, q) == v2[k2].1);
            assert(pm_get(v, q) == v[k].1);
        }
        if pm_has(v, q) && q != id {
            let k = pm_find(v, q);
            lemma_pm_find_props(v, q);
            assert(v[k].0 == q);
            assert(k != f);
            let k2: int = if k < f {
                k
            } else {
                k - 1
            };
            assert(v2[k2] == v[k]);
            assert(v2[k2].0 == q);
            assert(pm_has(v2, q));
        }
    }
}

/// Recording one more position for `id` keeps the map well-formed, adds at
/// most the id itself, rewrites its list as `search_coalesce` does, and
/// leaves every other entry in place.
pub proof fn lemma_pm_add_props(v: Seq<(u64, Seq<Position>)>, id: u64, p: Position)
    requires
        pm_wf(v),
    ensures
        pm_wf(spec_pm_add(v, id, p)),
        forall|q: u64| pm_has(#[trigger] spec_pm_add(v, id, p), q) <==> (pm_has(v, q) || q == id),
        pm_get(spec_pm_add(v, id, p), id) == if pm_has(v, id) {
            spec_search_coalesce(pm_get(v, id), 0, p).0
        } else {
            seq![p]
        },
        forall|q: u64|
            q != id && pm_has(v, q) ==> pm_get(#[trigger] spec_pm_add(v, id, p), q) == pm_get(v, q),
        spec_pm_add(v, id, p).len() > 0,
{
    let v2 = spec_pm_add(v, id, p);
    lemma_pm_find_props(v, id);
    let f = pm_find(v, id);
    if f < v.len() {
        // update in place
        assert(v2 == v.update(f, (id, spec_search_coalesce(v[f].1, 0, p).0)));
        assert forall|i: int, j: int| 0 <= i < j < v2.len() implies (#[trigger] v2[i]).0
            < (#[trigger] v2[j]).0 by {
            assert(v2[i].0 == v[i].0 && v2[j].0 == v[j].0);
        }
        assert forall|q: u64| true implies (pm_has(v2, q) <==> (pm_has(v, q) || q == id)) && (q
            != id && pm_has(v, q) ==> pm_get(v2, q) == pm_get(v, q)) by {
            lemma_pm_has(v, q);
            lemma_pm_has(v2, q);
            if pm_has(v, q) {
                let k = pm_find(v, q);
                lemma_pm_find_props(v, q);
                assert(v2[k].0 == q);
                lemma_pm_at_find(v2, k);
                if q != id {
                    assert(k != f);
                    assert(v2[k] == v[k]);
                }
            }
            if pm_has(v2, q) {
                let k = pm_find(v2, q);
                lemma_pm_find_props(v2, q);
                assert(v[k].0 == q);
                lemma_pm_at_find(v, k);
            }
        }
        assert(v2[f].0 == id);
        lemma_pm_at_find(v2, f);
        assert(pm_get(v2, id) == v2[f].1);
        assert(pm_get(v, id) == v[f].1);
    } else {
        // fresh entry at the sorted place
        let at = pm_lower(v, id);
        lemma_pm_lower_props(v, id);
        assert(v2 == v.insert(at, (id, seq![p])));
        assert forall|j: int| at <= j < v.len() implies id < (#[trigger] v[j]).0 by {
            if j == at {
                assert(v[at].0 >= id);
                assert(v[at].0 != id);
            } else {
                assert(v[at].0 >= id && v[at].0 != id);
                assert(v[at].0 < v[j].0);
            }
        }
        assert forall|i: int, j: int| 0 <= i < j < v2.len() implies (#[trigger] v2[i]).0
            < (#[trigger] v2[j]).0 by {
            let i2: int = if i < at {
                i
            } else {
                i - 1
            };
            let j2: int = if j < at {
                j
            } else {
                j - 1
            };
            if i != at {
                assert(v2[i] == v[i2]);
            }
            if j != at {
                assert(v2[j] == v[j2]);
            }
        }
        assert forall|q: u64| true implies (pm_has(v2, q) <==> (pm_has(v, q) || q == id)) && (q
            != id && pm_has(v, q) ==> pm_get(v2, q) == pm_get(v, q)) by {
            lemma_pm_has(v, q);
            lemma_pm_has(v2, q);
            if q == id {
                assert(v2[at] == (id, seq![p]));
                assert(v2[at].0 == q);
                assert(pm_has(v2, q));
            }
            if pm_has(v, q) {
                let k = pm_find(v, q);
                lemma_pm_find_props(v, q);
                assert(v[k].0 == q);
                let k2: int = if k < at {
                    k
                } else {
                    k + 1
                };
                assert(v2[k2] == v[k]);
                assert(v2[k2].0 == q);
                lemma_pm_at_find(v2, k2);
                if q != id {
                    lemma_pm_at_find(v, k);
                    assert(pm_get(v2, q) == v2[k2].1);
                    assert(pm_get(v, q) == v[k].1);
                }
            }
            if pm_has(v2, q) && q != id {
                let k2 = pm_find(v2, q);
                lemma_pm_find_props(v2, q);
                assert(v2[k2].0 == q);
                assert(v2[at] == (id, seq![p]));
                assert(k2 != at);
                let k: int = if k2 < at {
                    k2
                } else {
                    k2 - 1
                };
                assert(v2[k2] == v[k]);
                assert(v[k].0 == q);
            }
        }
        assert(v2[at].0 == id);
        lemma_pm_at_find(v2, at);
        assert(pm_get(v2, id) == v2[at].1);
        assert(v2[at].1 =~= seq![p]);
    }
}

} // verus!
