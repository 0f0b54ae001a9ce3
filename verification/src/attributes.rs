//! The attributes of a node: a finite map from names to values.

use crate::text::same_text;
use vstd::prelude::*;
use vstd::std_specs::cmp::PartialEqSpecImpl;

verus! {

/// A finite map from attribute names to attribute values.
///
/// The entries are kept in a vector, in the order in which their names were
/// first inserted, and no name occurs twice: see [`AttributeMap::inv`]. The
/// view is the map itself; [`AttributeMap::keys`] names the order, for code
/// that walks the entries.
#[derive(Debug)]
pub struct AttributeMap {
    entries: Vec<(String, String)>,
}

/// The names of a list of entries, in its order.
spec fn names(entries: Seq<(String, String)>) -> Seq<Seq<char>> {
    Seq::new(entries.len(), |i: int| entries[i].0@)
}

/// The values of a list of entries, in its order.
spec fn values(entries: Seq<(String, String)>) -> Seq<Seq<char>> {
    Seq::new(entries.len(), |i: int| entries[i].1@)
}

/// Of a sequence without repeats, as many items meet `p` as of the set of
/// its items.
proof fn lemma_filter_len_of_set<A>(s: Seq<A>, p: spec_fn(A) -> bool)
    requires
        s.no_duplicates(),
    ensures
        s.filter(p).len() == s.to_set().filter(p).len(),
    decreases s.len(),
{
    broadcast use vstd::set::group_set_axioms;

    reveal(Seq::filter);
    if s.len() == 0 {
        assert(s.to_set().filter(p) =~= Set::<A>::empty());
    } else {
        let rest = s.drop_last();
        let last = s.last();
        lemma_filter_len_of_set(rest, p);
        vstd::seq_lib::seq_to_set_is_finite(rest);
        assert(s =~= rest.push(last));
        rest.lemma_push_to_set_commute(last);
        assert(!rest.to_set().contains(last)) by {
            if rest.to_set().contains(last) {
                let j = choose|j: int| 0 <= j < rest.len() && rest[j] == last;
                assert(s[j] == s[s.len() - 1]);
            }
        }
        if p(last) {
            assert(s.to_set().filter(p) =~= rest.to_set().filter(p).insert(last));
        } else {
            assert(s.to_set().filter(p) =~= rest.to_set().filter(p));
        }
    }
}

impl View for AttributeMap {
    type V = Map<Seq<char>, Seq<char>>;

    closed spec fn view(&self) -> Map<Seq<char>, Seq<char>> {
        Map::new(
            |k: Seq<char>| self.keys().contains(k),
            |k: Seq<char>| self.values()[self.keys().index_of(k)],
        )
    }
}

impl AttributeMap {
    /// The names, in the order in which they were first inserted.
    pub closed spec fn keys(&self) -> Seq<Seq<char>> {
        names(self.entries@)
    }

    /// The values, in the order of their names.
    spec fn values(&self) -> Seq<Seq<char>> {
        values(self.entries@)
    }

    /// What holds of every attribute map: no name occurs twice.
    #[verifier::type_invariant]
    pub closed spec fn inv(&self) -> bool {
        self.keys().no_duplicates()
    }

    /// How the order of the names relates to the map: the names are the
    /// map's domain, each once.
    pub proof fn lemma_keys(&self)
        requires
            self.inv(),
        ensures
            self.keys().no_duplicates(),
            self.keys().to_set() == self@.dom(),
            self@.dom().finite(),
            self@.len() == self.keys().len(),
    {
        assert(self.keys().to_set() =~= self@.dom());
        vstd::seq_lib::seq_to_set_is_finite(self.keys());
        self.keys().unique_seq_to_set();
    }

    /// As many names meet `p` in the order of the names as in the map's
    /// domain.
    pub proof fn lemma_count(&self, p: spec_fn(Seq<char>) -> bool)
        requires
            self.inv(),
        ensures
            self.keys().filter(p).len() == self@.dom().filter(p).len(),
    {
        self.lemma_keys();
        lemma_filter_len_of_set(self.keys(), p);
    }

    /// The value at position `i` is the one that the map gives the name at
    /// position `i`.
    proof fn lemma_value_at(&self, i: int)
        requires
            self.inv(),
            0 <= i < self.keys().len(),
        ensures
            self@.contains_key(self.keys()[i]),
            self@[self.keys()[i]] == self.values()[i],
    {
        let k = self.keys()[i];
        assert(self.keys().contains(k));
        let j = self.keys().index_of(k);
        assert(self.keys()[j] == k);
    }

    /// The map without entries.
    pub fn new() -> (m: AttributeMap)
        ensures
            m@ == Map::<Seq<char>, Seq<char>>::empty(),
            m.keys() == Seq::<Seq<char>>::empty(),
            m.inv(),
    {
        AttributeMap { entries: Vec::new() }
    }

    /// The number of entries.
    pub fn len(&self) -> (n: usize)
        ensures
            n == self@.len(),
            n == self.keys().len(),
    {
        proof {
            use_type_invariant(self);
            self.lemma_keys();
        }
        self.entries.len()
    }

    /// The name at position `i` of [`AttributeMap::keys`].
    pub fn key_at(&self, i: usize) -> (k: &String)
        requires
            i < self.keys().len(),
        ensures
            k@ == self.keys()[i as int],
    {
        &self.entries[i].0
    }

    /// The value of the name at position `i` of [`AttributeMap::keys`].
    pub fn value_at(&self, i: usize) -> (v: &String)
        requires
            i < self.keys().len(),
        ensures
            self@.contains_key(self.keys()[i as int]),
            v@ == self@[self.keys()[i as int]],
    {
        proof {
            use_type_invariant(self);
            self.lemma_value_at(i as int);
        }
        &self.entries[i].1
    }

    /// Where `key` stands among the names, if it does.
    fn position(&self, key: &str) -> (r: Option<usize>)
        ensures
            match r {
                Some(i) => i < self.keys().len() && self.keys()[i as int] == key@,
                None => !self.keys().contains(key@),
            },
    {
        let mut i: usize = 0;
        while i < self.entries.len()
            invariant
                i <= self.entries.len(),
                forall|j: int| 0 <= j < i ==> self.keys()[j] != key@,
            decreases self.entries.len() - i,
        {
            if same_text(self.entries[i].0.as_str(), key) {
                return Some(i);
            }
            i += 1;
        }
        None
    }

    /// Whether the map has an entry for `key`.
    pub fn contains_key(&self, key: &str) -> (b: bool)
        ensures
            b == self@.contains_key(key@),
    {
        self.position(key).is_some()
    }

    /// The value of `key`, if the map has one.
    pub fn get(&self, key: &str) -> (r: Option<&String>)
        ensures
            match r {
                Some(v) => self@.contains_key(key@) && v@ == self@[key@],
                None => !self@.contains_key(key@),
            },
    {
        match self.position(key) {
            Some(i) => Some(self.value_at(i)),
            None => None,
        }
    }

    /// Gives `key` the value `value`, and returns the value that it had
    /// before, if it had one. A name that is new comes last in the order of
    /// the names; one that is not keeps its place.
    pub fn insert(&mut self, key: String, value: String) -> (r: Option<String>)
        ensures
            final(self)@ == old(self)@.insert(key@, value@),
            final(self).keys() == if old(self)@.contains_key(key@) {
                old(self).keys()
            } else {
                old(self).keys().push(key@)
            },
            final(self).inv(),
            match r {
                Some(v) => old(self)@.contains_key(key@) && v@ == old(self)@[key@],
                None => !old(self)@.contains_key(key@),
            },
    {
        proof {
            use_type_invariant(&*self);
        }
        let ghost before = *self;
        let found = self.position(key.as_str());
        let mut taken = AttributeMap { entries: Vec::new() };
        std::mem::swap(self, &mut taken);
        let mut entries = taken.entries;
        match found {
            Some(i) => {
                let previous = entries[i].1.clone();
                proof {
                    before.lemma_value_at(i as int);
                }
                entries.set(i, (key, value));
                assert(names(entries@) =~= before.keys());
                *self = AttributeMap { entries };
                proof {
                    assert(self.keys() =~= before.keys());
                    assert(self.values() =~= before.values().update(i as int, value@));
                    assert forall|k: Seq<char>| self@.contains_key(k) implies #[trigger] self@[k]
                        == before@.insert(key@, value@)[k] by {
                        let j = self.keys().index_of(k);
                        assert(self.keys()[j] == k);
                    }
                    assert(self@ =~= before@.insert(key@, value@));
                }
                Some(previous)
            },
            None => {
                entries.push((key, value));
                assert(names(entries@) =~= before.keys().push(key@));
                *self = AttributeMap { entries };
                proof {
                    assert(self.keys() =~= before.keys().push(key@));
                    assert(self.values() =~= before.values().push(value@));
                    assert forall|k: Seq<char>| self@.contains_key(k) implies #[trigger] self@[k]
                        == before@.insert(key@, value@)[k] by {
                        let j = self.keys().index_of(k);
                        assert(self.keys()[j] == k);
                        if k != key@ {
                            assert(before.keys().contains(k));
                            let j0 = before.keys().index_of(k);
                            assert(before.keys()[j0] == k);
                            assert(self.keys()[j0] == k);
                        }
                    }
                    assert forall|k: Seq<char>|
                        before@.insert(key@, value@).contains_key(k) implies self@.contains_key(
                        k,
                    ) by {
                        if k == key@ {
                            assert(self.keys()[before.keys().len() as int] == k);
                        } else {
                            let j0 = before.keys().index_of(k);
                            assert(before.keys()[j0] == k);
                            assert(self.keys()[j0] == k);
                        }
                    }
                    assert(self@ =~= before@.insert(key@, value@));
                }
                None
            },
        }
    }
}

impl Clone for AttributeMap {
    /// A copy with the same entries in the same order.
    fn clone(&self) -> (r: AttributeMap)
        ensures
            r@ == self@,
            r.keys() == self.keys(),
            r.inv(),
    {
        proof {
            use_type_invariant(self);
        }
        let mut entries: Vec<(String, String)> = Vec::new();
        let mut i: usize = 0;
        while i < self.entries.len()
            invariant
                i <= self.entries.len(),
                entries@.len() == i,
                forall|j: int|
                    0 <= j < i ==> entries@[j].0@ == self.entries@[j].0@ && entries@[j].1@
                        == self.entries@[j].1@,
            decreases self.entries.len() - i,
        {
            entries.push((self.entries[i].0.clone(), self.entries[i].1.clone()));
            i += 1;
        }
        assert(names(entries@) =~= self.keys());
        assert(values(entries@) =~= self.values());
        AttributeMap { entries }
    }
}

impl PartialEqSpecImpl for AttributeMap {
    open spec fn obeys_eq_spec() -> bool {
        true
    }

    /// Two attribute maps are equal when they are the same map, whatever
    /// the order in which their entries came.
    open spec fn eq_spec(&self, other: &AttributeMap) -> bool {
        self@ == other@
    }
}

impl PartialEq for AttributeMap {
    fn eq(&self, other: &AttributeMap) -> (r: bool) {
        proof {
            use_type_invariant(self);
            use_type_invariant(other);
            self.lemma_keys();
            other.lemma_keys();
        }
        if self.len() != other.len() {
            return false;
        }
        let mut i: usize = 0;
        while i < self.len()
            invariant
                i <= self.keys().len(),
                forall|j: int|
                    0 <= j < i ==> other@.contains_key(#[trigger] self.keys()[j]) && other@[self.keys()[j]]
                        == self@[self.keys()[j]],
            decreases self.keys().len() - i,
        {
            let value = self.value_at(i);
            match other.get(self.key_at(i).as_str()) {
                Some(found) => {
                    if !same_text(found.as_str(), value.as_str()) {
                        return false;
                    }
                },
                None => {
                    return false;
                },
            }
            i += 1;
        }
        proof {
            assert forall|k: Seq<char>| self@.dom().contains(k) implies other@.dom().contains(
                k,
            ) && self@[k] == other@[k] by {
                let j = self.keys().index_of(k);
                assert(self.keys()[j] == k);
            }
            vstd::set_lib::lemma_subset_equality(self@.dom(), other@.dom());
            assert(self@ =~= other@);
        }
        true
    }
}

} // verus!
