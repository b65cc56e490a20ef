//! An ordered index: keys in ascending order, each with the list of items
//! filed under it in the order in which they were filed.

use crate::text::{lemma_precedes_irreflexive, lemma_precedes_transitive, precedes, rank, texts, Rank};
use vstd::prelude::*;
use vstd::string::*;

verus! {

/// A key with its items, as plain text.
pub type Row = (Seq<char>, Seq<Seq<char>>);

/// A key paired with one item filed under it.
pub type Pair = (Seq<char>, Seq<char>);

/// The keys stand in strictly ascending order, so none occurs twice.
pub open spec fn ascending(l: Seq<Row>) -> bool {
    forall|i: int, j: int| 0 <= i < j < l.len() ==> precedes(#[trigger] l[i].0, #[trigger] l[j].0)
}

/// Some row has the key `k`.
pub open spec fn has_key(l: Seq<Row>, k: Seq<char>) -> bool {
    exists|i: int| 0 <= i < l.len() && #[trigger] l[i].0 == k
}

/// The place of a row with the key `k`.
pub open spec fn position(l: Seq<Row>, k: Seq<char>) -> int {
    choose|i: int| 0 <= i < l.len() && #[trigger] l[i].0 == k
}

/// The rows as a map from key to items.
pub open spec fn as_map(l: Seq<Row>) -> Map<Seq<char>, Seq<Seq<char>>> {
    Map::new(|k: Seq<char>| has_key(l, k), |k: Seq<char>| l[position(l, k)].1)
}

/// The items filed under `k`; none where the key is absent.
pub open spec fn items_at(m: Map<Seq<char>, Seq<Seq<char>>>, k: Seq<char>) -> Seq<Seq<char>> {
    if m.contains_key(k) {
        m[k]
    } else {
        Seq::empty()
    }
}

/// The items of one row, each paired with the row's key.
pub open spec fn row_pairs(r: Row) -> Seq<Pair> {
    Seq::new(r.1.len(), |i: int| (r.0, r.1[i]))
}

/// Every (key, item) pair, row after row and item after item.
pub open spec fn pairs_of(l: Seq<Row>) -> Seq<Pair>
    decreases l.len(),
{
    if l.len() == 0 {
        Seq::empty()
    } else {
        pairs_of(l.drop_last()) + row_pairs(l.last())
    }
}

/// The map that results from filing the pairs one after another, each item
/// at the end of its key's list.
pub open spec fn collect(ps: Seq<Pair>) -> Map<Seq<char>, Seq<Seq<char>>>
    decreases ps.len(),
{
    if ps.len() == 0 {
        Map::empty()
    } else {
        let m = collect(ps.drop_last());
        m.insert(ps.last().0, items_at(m, ps.last().0).push(ps.last().1))
    }
}

/// In ascending rows the row at `i` is the one found under its key.
pub proof fn lemma_row_at(l: Seq<Row>, i: int)
    requires
        ascending(l),
        0 <= i < l.len(),
    ensures
        has_key(l, l[i].0),
        position(l, l[i].0) == i,
        as_map(l).contains_key(l[i].0),
        as_map(l)[l[i].0] == l[i].1,
{
    let p = position(l, l[i].0);
    lemma_precedes_irreflexive(l[i].0);
    if p < i {
        assert(precedes(l[p].0, l[i].0));
    } else if i < p {
        assert(precedes(l[i].0, l[p].0));
    }
}

/// Replacing the items of the row at `i` replaces them in the map.
pub proof fn lemma_update_row(l: Seq<Row>, i: int, items: Seq<Seq<char>>)
    requires
        ascending(l),
        0 <= i < l.len(),
    ensures
        ascending(l.update(i, (l[i].0, items))),
        as_map(l.update(i, (l[i].0, items))) == as_map(l).insert(l[i].0, items),
{
    let k = l[i].0;
    let l2 = l.update(i, (k, items));
    assert forall|a: int, b: int| 0 <= a < b < l2.len() implies precedes(
        #[trigger] l2[a].0,
        #[trigger] l2[b].0,
    ) by {
        assert(l2[a].0 == l[a].0 && l2[b].0 == l[b].0);
    }
    assert forall|q: Seq<char>| has_key(l2, q) <==> (q == k || has_key(l, q)) by {
        if has_key(l2, q) {
            let j = position(l2, q);
            assert(l[j].0 == q);
        }
        if has_key(l, q) {
            let j = position(l, q);
            assert(l2[j].0 == q);
        }
        if q == k {
            assert(l2[i].0 == q);
        }
    }
    assert forall|q: Seq<char>| has_key(l2, q) implies as_map(l2)[q] == as_map(l).insert(
        k,
        items,
    )[q] by {
        let j = position(l2, q);
        lemma_row_at(l2, j);
        lemma_row_at(l, j);
    }
    assert(as_map(l2) =~= as_map(l).insert(k, items));
}

/// Putting a new row between the keys below it and the keys above it adds
/// it to the map.
pub proof fn lemma_insert_row(l: Seq<Row>, i: int, row: Row)
    requires
        ascending(l),
        0 <= i <= l.len(),
        forall|j: int| 0 <= j < i ==> precedes(#[trigger] l[j].0, row.0),
        forall|j: int| i <= j < l.len() ==> precedes(row.0, #[trigger] l[j].0),
    ensures
        !has_key(l, row.0),
        ascending(l.insert(i, row)),
        as_map(l.insert(i, row)) == as_map(l).insert(row.0, row.1),
{
    let k = row.0;
    let l2 = l.insert(i, row);
    lemma_precedes_irreflexive(k);
    assert forall|a: int, b: int| 0 <= a < b < l2.len() implies precedes(
        #[trigger] l2[a].0,
        #[trigger] l2[b].0,
    ) by {
        let a0 = if a < i { a } else { a - 1 };
        let b0 = if b < i { b } else { b - 1 };
        if a != i && b != i {
            assert(l2[a] == l[a0] && l2[b] == l[b0]);
        } else if a == i {
            assert(l2[b] == l[b0]);
        } else {
            assert(l2[a] == l[a0]);
        }
    }
    assert forall|q: Seq<char>| has_key(l2, q) <==> (q == k || has_key(l, q)) by {
        if has_key(l2, q) {
            let j = position(l2, q);
            if j < i {
                assert(l[j].0 == q);
            } else if j > i {
                assert(l[j - 1].0 == q);
            }
        }
        if has_key(l, q) {
            let j = position(l, q);
            if j < i {
                assert(l2[j].0 == q);
            } else {
                assert(l2[j + 1].0 == q);
            }
        }
        if q == k {
            assert(l2[i].0 == q);
        }
    }
    assert forall|q: Seq<char>| has_key(l2, q) implies as_map(l2)[q] == as_map(l).insert(
        k,
        row.1,
    )[q] by {
        let j = position(l2, q);
        lemma_row_at(l2, j);
        if j < i {
            lemma_row_at(l, j);
        } else if j > i {
            lemma_row_at(l, j - 1);
        }
    }
    assert(as_map(l2) =~= as_map(l).insert(k, row.1));
}

/// A new row adds its items to the number of pairs.
pub proof fn lemma_insert_row_pairs(l: Seq<Row>, i: int, row: Row)
    requires
        0 <= i <= l.len(),
    ensures
        pairs_of(l.insert(i, row)).len() == pairs_of(l).len() + row.1.len(),
    decreases l.len() - i,
{
    let l2 = l.insert(i, row);
    if i == l.len() {
        assert(l2.drop_last() =~= l);
        assert(l2.last() == row);
    } else {
        assert(l2.drop_last() =~= l.drop_last().insert(i, row));
        assert(l2.last() == l.last());
        lemma_insert_row_pairs(l.drop_last(), i, row);
    }
}

/// A row put in place of another changes the number of pairs by the
/// difference of their items.
pub proof fn lemma_update_row_pairs(l: Seq<Row>, i: int, row: Row)
    requires
        0 <= i < l.len(),
    ensures
        pairs_of(l.update(i, row)).len() + l[i].1.len() == pairs_of(l).len() + row.1.len(),
    decreases l.len(),
{
    let l2 = l.update(i, row);
    if i == l.len() - 1 {
        assert(l2.drop_last() =~= l.drop_last());
        assert(l2.last() == row);
    } else {
        assert(l2.drop_last() =~= l.drop_last().update(i, row));
        assert(l2.last() == l.last());
        lemma_update_row_pairs(l.drop_last(), i, row);
    }
}

/// One key with the items filed under it.
pub struct Entry {
    pub key: String,
    pub items: Vec<String>,
}

impl Entry {
    /// The entry as plain text.
    pub open spec fn view(&self) -> Row {
        (self.key@, texts(self.items@))
    }
}

/// Keys in ascending order, each with its items in filing order.
pub struct OrderedIndex {
    pub entries: Vec<Entry>,
}

impl OrderedIndex {
    /// The rows in stored order.
    pub open spec fn listing(&self) -> Seq<Row> {
        Seq::new(self.entries@.len(), |i: int| self.entries@[i]@)
    }

    /// The keys ascend strictly.
    pub open spec fn wf(&self) -> bool {
        ascending(self.listing())
    }

    /// The index as a map from key to items.
    pub open spec fn view(&self) -> Map<Seq<char>, Seq<Seq<char>>> {
        as_map(self.listing())
    }

    /// The number of items, over all keys.
    pub open spec fn count(&self) -> nat {
        pairs_of(self.listing()).len()
    }

    /// An index without keys.
    pub fn new() -> (r: OrderedIndex)
        ensures
            r.wf(),
            r.listing() == Seq::<Row>::empty(),
            r@ == Map::<Seq<char>, Seq<Seq<char>>>::empty(),
    {
        let r = OrderedIndex { entries: Vec::new() };
        assert(r.listing() =~= Seq::<Row>::empty());
        assert(r@ =~= Map::<Seq<char>, Seq<Seq<char>>>::empty());
        r
    }

    /// Tells whether the keys ascend strictly.
    pub fn is_ordered(&self) -> (b: bool)
        ensures
            b == self.wf(),
    {
        let ghost l = self.listing();
        if self.entries.len() < 2 {
            return true;
        }
        let mut i: usize = 1;
        while i < self.entries.len()
            invariant
                l == self.listing(),
                1 <= i <= self.entries@.len(),
                ascending(l.take(i as int)),
            decreases self.entries@.len() - i,
        {
            assert(l[i - 1].0 == self.entries@[i - 1].key@);
            assert(l[i as int].0 == self.entries@[i as int].key@);
            match rank(self.entries[i - 1].key.as_str(), self.entries[i].key.as_str()) {
                Rank::Before => {
                    assert forall|a: int, b: int| 0 <= a < b < i + 1 implies precedes(
                        #[trigger] l.take(i + 1)[a].0,
                        #[trigger] l.take(i + 1)[b].0,
                    ) by {
                        assert(l.take(i as int)[a] == l[a]);
                        if b < i {
                            assert(l.take(i as int)[b] == l[b]);
                        } else if a < i - 1 {
                            assert(l.take(i as int)[i - 1] == l[i - 1]);
                            lemma_precedes_transitive(l[a].0, l[i - 1].0, l[i as int].0);
                        }
                    }
                },
                _ => {
                    assert(ascending(l) ==> precedes(l[i - 1].0, l[i as int].0));
                    return false;
                },
            }
            i += 1;
        }
        assert(l.take(i as int) =~= l);
        true
    }

    /// Searches for `key` by halving. Returns the place of its entry and
    /// `true`, or the place where it would have to stand and `false`.
    pub fn locate(&self, key: &str) -> (r: (usize, bool))
        requires
            self.wf(),
        ensures
            r.1 == self@.contains_key(key@),
            r.1 ==> r.0 < self.entries@.len() && self.listing()[r.0 as int].0 == key@,
            !r.1 ==> r.0 <= self.entries@.len(),
            !r.1 ==> forall|j: int| 0 <= j < r.0 ==> precedes(#[trigger] self.listing()[j].0, key@),
            !r.1 ==> forall|j: int|
                r.0 <= j < self.entries@.len() ==> precedes(key@, #[trigger] self.listing()[j].0),
    {
        let ghost l = self.listing();
        let mut lo: usize = 0;
        let mut hi: usize = self.entries.len();
        while lo < hi
            invariant
                l == self.listing(),
                ascending(l),
                lo <= hi <= self.entries@.len(),
                forall|j: int| 0 <= j < lo ==> precedes(#[trigger] l[j].0, key@),
                forall|j: int| hi <= j < l.len() ==> precedes(key@, #[trigger] l[j].0),
            decreases hi - lo,
        {
            let mid = lo + (hi - lo) / 2;
            assert(l[mid as int].0 == self.entries@[mid as int].key@);
            match rank(self.entries[mid].key.as_str(), key) {
                Rank::Same => {
                    proof {
                        lemma_row_at(l, mid as int);
                    }
                    return (mid, true);
                },
                Rank::Before => {
                    assert forall|j: int| 0 <= j < mid + 1 implies precedes(
                        #[trigger] l[j].0,
                        key@,
                    ) by {
                        if j < mid {
                            lemma_precedes_transitive(l[j].0, l[mid as int].0, key@);
                        }
                    }
                    lo = mid + 1;
                },
                Rank::After => {
                    assert forall|j: int| mid <= j < l.len() implies precedes(
                        key@,
                        #[trigger] l[j].0,
                    ) by {
                        if j > mid {
                            lemma_precedes_transitive(key@, l[mid as int].0, l[j].0);
                        }
                    }
                    hi = mid;
                },
            }
        }
        proof {
            lemma_precedes_irreflexive(key@);
            if has_key(l, key@) {
                let p = position(l, key@);
                assert(precedes(l[p].0, key@) || precedes(key@, l[p].0));
            }
        }
        (lo, false)
    }

    /// Files `item` at the end of the list of `key`, which starts a new
    /// list where the key was absent.
    pub fn append(&mut self, key: &str, item: &str)
        requires
            old(self).wf(),
        ensures
            final(self).wf(),
            final(self)@ == old(self)@.insert(key@, items_at(old(self)@, key@).push(item@)),
            final(self).count() == old(self).count() + 1,
    {
        let ghost l = self.listing();
        let (at, found) = self.locate(key);
        if found {
            let ghost before = texts(self.entries@[at as int].items@);
            self.entries[at].items.push(String::from_str(item));
            proof {
                lemma_row_at(l, at as int);
                lemma_update_row(l, at as int, before.push(item@));
                lemma_update_row_pairs(l, at as int, (key@, before.push(item@)));
                assert(texts(self.entries@[at as int].items@) =~= before.push(item@));
                assert(self.listing() =~= l.update(at as int, (key@, before.push(item@))));
            }
        } else {
            let mut items: Vec<String> = Vec::new();
            items.push(String::from_str(item));
            let entry = Entry { key: String::from_str(key), items };
            self.entries.insert(at, entry);
            proof {
                assert(texts(items@) =~= Seq::<Seq<char>>::empty().push(item@));
                lemma_insert_row(l, at as int, entry@);
                lemma_insert_row_pairs(l, at as int, entry@);
                assert(self.listing() =~= l.insert(at as int, entry@));
            }
        }
    }

    /// The items filed under `key`, in filing order; none where the key is
    /// absent.
    pub fn get(&self, key: &str) -> (items: Vec<String>)
        requires
            self.wf(),
        ensures
            texts(items@) == items_at(self@, key@),
    {
        let (at, found) = self.locate(key);
        let mut items: Vec<String> = Vec::new();
        if found {
            proof {
                lemma_row_at(self.listing(), at as int);
            }
            let stored = &self.entries[at].items;
            let mut i: usize = 0;
            while i < stored.len()
                invariant
                    i <= stored@.len(),
                    items@.len() == i,
                    forall|j: int| 0 <= j < i ==> items@[j]@ == stored@[j]@,
                decreases stored@.len() - i,
            {
                items.push(stored[i].clone());
                i += 1;
            }
            assert(texts(items@) =~= texts(stored@));
        } else {
            assert(texts(items@) =~= Seq::<Seq<char>>::empty());
        }
        items
    }

    /// Puts `items` in place of the list of `key`, if the key is present;
    /// changes nothing otherwise. Returns whether the key was present.
    pub fn replace(&mut self, key: &str, items: Vec<String>) -> (present: bool)
        requires
            old(self).wf(),
        ensures
            final(self).wf(),
            present == old(self)@.contains_key(key@),
            present ==> final(self)@ == old(self)@.insert(key@, texts(items@)),
            !present ==> *final(self) == *old(self),
    {
        let ghost l = self.listing();
        let (at, found) = self.locate(key);
        if found {
            self.entries[at].items = items;
            proof {
                lemma_update_row(l, at as int, texts(items@));
                assert(self.listing() =~= l.update(at as int, (key@, texts(items@))));
            }
        }
        found
    }
}

} // verus!
