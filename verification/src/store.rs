//! The prefix-index store: a Patricia tree keyed by the bytes of a key. The
//! tree binds each key to a slot, and the slot holds the value, so that the
//! tree itself only carries plain numbers.

use crate::outside::{
    bytes_before, key_list, tree_entries, tree_get, tree_insert, tree_keys, tree_new,
};
use crate::records::MDictRecordIndex;
use patricia_tree::GenericPatriciaMap;
use vstd::prelude::*;

verus! {

/// The locators bound to one keyword: one, or several where the keyword
/// occurs more than once in the archive.
pub enum MDictRecordIndices {
    Index(MDictRecordIndex),
    IndexVec(Vec<MDictRecordIndex>),
}

impl View for MDictRecordIndices {
    type V = Seq<MDictRecordIndex>;

    open spec fn view(&self) -> Seq<MDictRecordIndex> {
        match self {
            MDictRecordIndices::Index(locator) => seq![*locator],
            MDictRecordIndices::IndexVec(locators) => locators@,
        }
    }
}

impl MDictRecordIndices {
    /// The number of locators.
    pub fn len(&self) -> (n: usize)
        ensures
            n == self@.len(),
    {
        match self {
            MDictRecordIndices::Index(_) => 1,
            MDictRecordIndices::IndexVec(locators) => locators.len(),
        }
    }

    /// The locator at position `i`, if there is one.
    pub fn get(&self, i: usize) -> (r: Option<MDictRecordIndex>)
        ensures
            r == (if i < self@.len() {
                Some(self@[i as int])
            } else {
                None
            }),
    {
        match self {
            MDictRecordIndices::Index(locator) => if i == 0 {
                Some(*locator)
            } else {
                None
            },
            MDictRecordIndices::IndexVec(locators) => if i < locators.len() {
                Some(locators[i])
            } else {
                None
            },
        }
    }

    /// The bindings with one more locator at the end. A single locator is
    /// promoted to a list; the locators stay in the order in which they came.
    pub fn with(self, locator: MDictRecordIndex) -> (r: MDictRecordIndices)
        ensures
            r@ == self@.push(locator),
    {
        match self {
            MDictRecordIndices::Index(first) => {
                let mut locators: Vec<MDictRecordIndex> = Vec::new();
                locators.push(first);
                locators.push(locator);
                proof {
                    assert(locators@ =~= seq![first].push(locator));
                }
                MDictRecordIndices::IndexVec(locators)
            },
            MDictRecordIndices::IndexVec(locators) => {
                let mut locators = locators;
                locators.push(locator);
                MDictRecordIndices::IndexVec(locators)
            },
        }
    }

    /// A cursor over the locators that takes them over.
    pub fn into_iter(self) -> (iter: MDictRecordIndicesIntoIter)
        ensures
            iter.items() == self@,
            iter.position() == 0,
    {
        MDictRecordIndicesIntoIter { inner: self, cursor: 0 }
    }

    /// A cursor over the locators that borrows them.
    pub fn iter(&self) -> (iter: MDictRecordIndicesIter<'_>)
        ensures
            iter.items() == self@,
            iter.position() == 0,
    {
        MDictRecordIndicesIter { inner: self, cursor: 0 }
    }
}

/// A cursor over locators that it owns.
pub struct MDictRecordIndicesIntoIter {
    inner: MDictRecordIndices,
    cursor: usize,
}

/// A cursor over borrowed locators.
pub struct MDictRecordIndicesIter<'a> {
    inner: &'a MDictRecordIndices,
    cursor: usize,
}

impl MDictRecordIndicesIntoIter {
    /// The locators that the cursor runs over.
    pub closed spec fn items(self) -> Seq<MDictRecordIndex> {
        self.inner@
    }

    /// How many times the cursor has moved on.
    pub closed spec fn position(self) -> nat {
        self.cursor as nat
    }

    /// Hands out the locator at the cursor, or `None` where the cursor is at
    /// or past the end, and moves the cursor on. The cursor moves at every
    /// call, also past the end; only at the greatest position does it stay.
    pub fn next(&mut self) -> (r: Option<MDictRecordIndex>)
        ensures
            final(self).items() == old(self).items(),
            r == (if old(self).position() < old(self).items().len() {
                Some(old(self).items()[old(self).position() as int])
            } else {
                None
            }),
            old(self).position() < usize::MAX ==> final(self).position() == old(self).position()
                + 1,
            old(self).position() >= usize::MAX ==> final(self).position() == old(self).position(),
    {
        let cursor: usize = self.cursor;
        if cursor < usize::MAX {
            self.cursor = cursor + 1;
        }
        self.inner.get(cursor)
    }
}

impl<'a> MDictRecordIndicesIter<'a> {
    /// The locators that the cursor runs over.
    pub closed spec fn items(self) -> Seq<MDictRecordIndex> {
        self.inner@
    }

    /// How many times the cursor has moved on.
    pub closed spec fn position(self) -> nat {
        self.cursor as nat
    }

    /// Hands out the locator at the cursor, or `None` where the cursor is at
    /// or past the end, and moves the cursor on. The cursor moves at every
    /// call, also past the end; only at the greatest position does it stay.
    pub fn next(&mut self) -> (r: Option<MDictRecordIndex>)
        ensures
            final(self).items() == old(self).items(),
            r == (if old(self).position() < old(self).items().len() {
                Some(old(self).items()[old(self).position() as int])
            } else {
                None
            }),
            old(self).position() < usize::MAX ==> final(self).position() == old(self).position()
                + 1,
            old(self).position() >= usize::MAX ==> final(self).position() == old(self).position(),
    {
        let cursor: usize = self.cursor;
        if cursor < usize::MAX {
            self.cursor = cursor + 1;
        }
        self.inner.get(cursor)
    }
}

/// A prefix tree from keys to values.
pub struct PrefixIndex<V> {
    tree: GenericPatriciaMap<Vec<u8>, usize>,
    slots: Vec<V>,
}

impl<V> PrefixIndex<V> {
    #[verifier::type_invariant]
    closed spec fn well_formed(self) -> bool {
        &&& forall|k: Seq<u8>| #[trigger]
            tree_entries(self.tree).contains_key(k) ==> tree_entries(self.tree)[k]
                < self.slots@.len()
        &&& forall|k1: Seq<u8>, k2: Seq<u8>|
            tree_entries(self.tree).contains_key(k1) && tree_entries(self.tree).contains_key(k2)
                && #[trigger] tree_entries(self.tree)[k1] == #[trigger] tree_entries(
                self.tree,
            )[k2] ==> k1 == k2
    }

    /// Whether the index binds `key`.
    pub closed spec fn has(self, key: Seq<u8>) -> bool {
        tree_entries(self.tree).contains_key(key)
    }

    /// The value bound to `key`, where the index binds it.
    pub closed spec fn value(self, key: Seq<u8>) -> V {
        self.slots@[tree_entries(self.tree)[key] as int]
    }

    /// The bindings of the index as a map.
    pub open spec fn bindings(self) -> Map<Seq<u8>, V> {
        Map::new(|k: Seq<u8>| self.has(k), |k: Seq<u8>| self.value(k))
    }

    /// An index without bindings.
    pub fn new() -> (index: PrefixIndex<V>)
        ensures
            forall|k: Seq<u8>| !index.has(k),
    {
        PrefixIndex { tree: tree_new(), slots: Vec::new() }
    }

    /// Binds `key` to `value`; an earlier binding of the key is replaced, and
    /// every other binding stays.
    pub fn insert(self, key: &[u8], value: V) -> (index: PrefixIndex<V>)
        ensures
            index.has(key@),
            index.value(key@) == value,
            forall|k: Seq<u8>| k != key@ ==> index.has(k) == self.has(k),
            forall|k: Seq<u8>| k != key@ && self.has(k) ==> index.value(k) == self.value(k),
    {
        proof {
            use_type_invariant(&self);
        }
        let PrefixIndex { tree, slots } = self;
        let mut tree = tree;
        let mut slots = slots;
        let slot: usize = slots.len();
        slots.push(value);
        let _ = tree_insert(&mut tree, key, slot);
        PrefixIndex { tree, slots }
    }

    /// The value bound to `key`, if the index binds it.
    pub fn get(&self, key: &[u8]) -> (r: Option<&V>)
        ensures
            match r {
                Some(v) => self.has(key@) && *v == self.value(key@),
                None => !self.has(key@),
            },
    {
        proof {
            use_type_invariant(self);
        }
        match tree_get(&self.tree, key) {
            Some(slot) => Some(&self.slots[slot]),
            None => None,
        }
    }

    /// The keys of the index: each once, in ascending lexicographic order.
    pub fn keys(&self) -> (keys: Vec<Vec<u8>>)
        ensures
            forall|i: int| 0 <= i < keys@.len() ==> self.has(#[trigger] key_list(keys)[i]),
            forall|k: Seq<u8>| #[trigger] self.has(k) ==> key_list(keys).contains(k),
            forall|i: int, j: int|
                0 <= i < j < keys@.len() ==> bytes_before(
                    #[trigger] key_list(keys)[i],
                    #[trigger] key_list(keys)[j],
                ),
    {
        tree_keys(&self.tree)
    }
}

impl PrefixIndex<MDictRecordIndices> {
    /// Adds `locator` to the locators of `key`: a key that was not bound is
    /// bound to the one locator, a key that was bound gets the locator at the
    /// end of its list. Every other binding stays.
    pub fn add(self, key: &[u8], locator: MDictRecordIndex) -> (index: PrefixIndex<
        MDictRecordIndices,
    >)
        ensures
            index.has(key@),
            index.value(key@)@ == (if self.has(key@) {
                self.value(key@)@.push(locator)
            } else {
                seq![locator]
            }),
            forall|k: Seq<u8>| k != key@ ==> index.has(k) == self.has(k),
            forall|k: Seq<u8>| k != key@ && self.has(k) ==> index.value(k) == self.value(k),
    {
        proof {
            use_type_invariant(&self);
        }
        let PrefixIndex { tree, slots } = self;
        let mut tree = tree;
        let mut slots = slots;
        match tree_get(&tree, key) {
            None => {
                let slot: usize = slots.len();
                slots.push(MDictRecordIndices::Index(locator));
                let _ = tree_insert(&mut tree, key, slot);
                PrefixIndex { tree, slots }
            },
            Some(slot) => {
                let ghost before = slots@;
                let last: usize = slots.len() - 1;
                let taken = slots.swap_remove(slot);
                slots.push(taken.with(locator));
                if slot != last {
                    // The last value stands in the freed slot: put both back in place.
                    let moved = slots.swap_remove(slot);
                    slots.push(moved);
                }
                proof {
                    assert(slots@.len() == before.len());
                    assert(forall|s: int|
                        0 <= s < before.len() && s != slot ==> slots@[s] == before[s]);
                }
                PrefixIndex { tree, slots }
            },
        }
    }
}

} // verus!
