//! A map from texts to values that can be listed.

use vstd::hash_map::StringHashMap;
use vstd::prelude::*;

verus! {

/// A map with text keys. It keeps its entries in the order in which their keys
/// came, next to an index from key to place.
pub struct StrMap<V> {
    index: StringHashMap<usize>,
    entries: Vec<(Box<str>, V)>,
}

/// Whether `entries` holds exactly the pairs of `m`, each key once.
pub open spec fn lists<V>(entries: Seq<(Box<str>, V)>, m: Map<Seq<char>, V>) -> bool {
    &&& forall|i: int, j: int|
        0 <= i < j < entries.len() ==> (#[trigger] entries[i]).0@ != (#[trigger] entries[j]).0@
    &&& forall|i: int|
        0 <= i < entries.len() ==> m.contains_pair((#[trigger] entries[i]).0@, entries[i].1)
    &&& forall|k: Seq<char>| #[trigger]
        m.contains_key(k) ==> exists|i: int|
            0 <= i < entries.len() && (#[trigger] entries[i]).0@ == k
}

impl<V> View for StrMap<V> {
    type V = Map<Seq<char>, V>;

    closed spec fn view(&self) -> Map<Seq<char>, V> {
        Map::new(
            |k: Seq<char>| self.index@.contains_key(k),
            |k: Seq<char>| self.entries@[self.index@[k] as int].1,
        )
    }
}

impl<V> StrMap<V> {
    /// Index and entries agree: every entry is indexed at its place, and every
    /// indexed place holds its key.
    #[verifier::type_invariant]
    spec fn indexed(self) -> bool {
        &&& forall|k: Seq<char>| #[trigger]
            self.index@.contains_key(k) ==> self.index@[k] < self.entries@.len()
                && self.entries@[self.index@[k] as int].0@ == k
        &&& forall|i: int|
            0 <= i < self.entries@.len() ==> self.index@.contains_key(
                (#[trigger] self.entries@[i]).0@,
            ) && self.index@[self.entries@[i].0@] == i
    }

    /// The empty map.
    pub fn new() -> (r: Self)
        ensures
            r@ == Map::<Seq<char>, V>::empty(),
    {
        let r = StrMap { index: StringHashMap::new(), entries: Vec::new() };
        assert(r@ =~= Map::<Seq<char>, V>::empty());
        r
    }

    /// The number of keys.
    pub fn len(&self) -> (r: usize)
        ensures
            r == self@.len(),
    {
        assert(self@.dom() =~= self.index@.dom());
        self.index.len()
    }

    /// Whether there is no key.
    pub fn is_empty(&self) -> (r: bool)
        ensures
            r == (self@ == Map::<Seq<char>, V>::empty()),
    {
        proof {
            use_type_invariant(self);
            if self.entries@.len() == 0 {
                assert(self@ =~= Map::<Seq<char>, V>::empty());
            } else {
                assert(self@.contains_key(self.entries@[0].0@));
            }
        }
        self.entries.len() == 0
    }

    /// The value of a key.
    pub fn get(&self, key: &str) -> (r: Option<&V>)
        ensures
            match r {
                Some(v) => self@.contains_pair(key@, *v),
                None => !self@.contains_key(key@),
            },
    {
        proof {
            use_type_invariant(self);
        }
        match self.index.get(key) {
            Some(i) => Some(&self.entries[*i].1),
            None => None,
        }
    }

    /// Sets the value of a key, in place of the one that it had.
    pub fn insert(&mut self, key: Box<str>, value: V)
        ensures
            final(self)@ == old(self)@.insert(key@, value),
    {
        proof {
            use_type_invariant(&*self);
        }
        let mut held = StrMap::new();
        std::mem::swap(self, &mut held);
        let ghost before = held;
        let StrMap { mut index, mut entries } = held;
        let place: Option<usize> = match index.get(&key) {
            Some(i) => Some(*i),
            None => None,
        };
        match place {
            Some(i) => {
                entries[i].1 = value;
            },
            None => {
                index.insert((*key).to_owned(), entries.len());
                entries.push((key, value));
            },
        }
        *self = StrMap { index, entries };
        assert(self@ =~= before@.insert(key@, value));
    }

    /// The pairs of the map, each key once.
    pub fn entries(&self) -> (r: &Vec<(Box<str>, V)>)
        ensures
            lists(r@, self@),
    {
        proof {
            use_type_invariant(self);
        }
        &self.entries
    }

    /// The pairs of the map, each key once.
    pub fn into_entries(self) -> (r: Vec<(Box<str>, V)>)
        ensures
            lists(r@, self@),
    {
        proof {
            use_type_invariant(&self);
        }
        self.entries
    }
}

impl<V> Default for StrMap<V> {
    fn default() -> (r: Self)
        ensures
            r@ == Map::<Seq<char>, V>::empty(),
    {
        StrMap::new()
    }
}

/// A list of a map holds its pairs, all of them, nothing else, and each key at
/// one place.
pub proof fn law_list_holds_the_pairs<V>(
    entries: Seq<(Box<str>, V)>,
    m: Map<Seq<char>, V>,
    key: Seq<char>,
    value: V,
)
    requires
        lists(entries, m),
    ensures
        m.contains_pair(key, value) <==> exists|i: int|
            0 <= i < entries.len() && (#[trigger] entries[i]).0@ == key && entries[i].1 == value,
        forall|i: int, j: int|
            0 <= i < entries.len() && 0 <= j < entries.len() && (#[trigger] entries[i]).0@ == (
            #[trigger] entries[j]).0@ ==> i == j,
{
    if m.contains_pair(key, value) {
        let i = choose|i: int| 0 <= i < entries.len() && (#[trigger] entries[i]).0@ == key;
        assert(m.contains_pair(entries[i].0@, entries[i].1));
    }
}

} // verus!
