//! A map from wire names to wire values.
use vstd::prelude::*;
use crate::ast::{WireValue, WireWidth};

verus! {

/// Whether two string slices hold the same characters (`==` on `str`).
#[verifier::external_body]
pub fn str_eq(a: &str, b: &str) -> (r: bool)
    ensures
        r == (a@ == b@),
{
    a == b
}

/// Names of wires with a value for each; each name occurs once.
#[derive(Debug)]
pub struct NameMap<V: Copy> {
    names: Vec<String>,
    values: Vec<V>,
}

/// The values of wires, by name.
pub type WireValues = NameMap<WireValue>;

/// The widths of wires, by name.
pub type WireWidths = NameMap<WireWidth>;

impl<V: Copy> NameMap<V> {
    #[verifier::type_invariant]
    pub closed spec fn wf(self) -> bool {
        &&& self.names.len() == self.values.len()
        &&& self.keys().no_duplicates()
    }

    /// The names, in the order they were first inserted.
    pub closed spec fn keys(self) -> Seq<Seq<char>> {
        self.names@.map_values(|s: String| s@)
    }

    pub closed spec fn view(self) -> Map<Seq<char>, V> {
        Map::new(
            |k: Seq<char>| self.keys().contains(k),
            |k: Seq<char>| self.values@[self.keys().index_of(k)],
        )
    }

    pub closed spec fn value_at(self, i: int) -> V {
        self.values@[i]
    }

    /// The number of names.
    pub closed spec fn spec_len(self) -> nat {
        self.names@.len()
    }

    pub proof fn lemma_keys(self)
        requires
            self.wf(),
        ensures
            self.keys().len() == self.spec_len(),
            self.keys().no_duplicates(),
            forall|i: int|
                0 <= i < self.spec_len() ==> #[trigger] self@.dom().contains(self.keys()[i])
                    && self@[self.keys()[i]] == self.value_at(i),
            forall|k: Seq<char>| self@.dom().contains(k) <==> self.keys().contains(k),
            self@.dom().finite(),
    {
        assert forall|i: int| 0 <= i < self.spec_len() implies #[trigger] self@.dom().contains(
            self.keys()[i],
        ) && self@[self.keys()[i]] == self.value_at(i) by {
            let k = self.keys()[i];
            assert(self.keys().contains(k));
            let j = self.keys().index_of(k);
            assert(self.keys()[j] == k);
        }
        assert(self@.dom() =~= self.keys().to_set());
    }

    pub fn new() -> (r: NameMap<V>)
        ensures
            r@ == Map::<Seq<char>, V>::empty(),
            r.spec_len() == 0,
            r.keys() == Seq::<Seq<char>>::empty(),
    {
        let r = NameMap { names: Vec::new(), values: Vec::new() };
        assert(r@ =~= Map::<Seq<char>, V>::empty());
        assert(r.keys() =~= Seq::<Seq<char>>::empty());
        r
    }

    pub fn len(&self) -> (r: usize)
        ensures
            r == self.spec_len(),
            r == self@.dom().len(),
    {
        proof {
            use_type_invariant(self);
            self.lemma_keys();
            self.keys().unique_seq_to_set();
            assert(self@.dom() =~= self.keys().to_set());
        }
        self.names.len()
    }

    /// The position of a name, if it is present.
    fn find(&self, name: &str) -> (r: Option<usize>)
        ensures
            match r {
                Some(i) => i < self.spec_len() && self.keys()[i as int] == name@,
                None => !self.keys().contains(name@),
            },
    {
        proof {
            use_type_invariant(self);
        }
        let mut i: usize = 0;
        while i < self.names.len()
            invariant
                i <= self.names@.len(),
                self.keys().len() == self.names@.len(),
                forall|j: int| 0 <= j < i ==> self.keys()[j] != name@,
            decreases self.names@.len() - i,
        {
            if str_eq(self.names[i].as_str(), name) {
                return Some(i);
            }
            i = i + 1;
        }
        None
    }

    pub fn get(&self, name: &str) -> (r: Option<&V>)
        ensures
            match r {
                Some(v) => self@.dom().contains(name@) && self@[name@] == *v,
                None => !self@.dom().contains(name@),
            },
    {
        proof {
            use_type_invariant(self);
            self.lemma_keys();
        }
        match self.find(name) {
            Some(i) => Some(&self.values[i]),
            None => None,
        }
    }

    pub fn contains_key(&self, name: &str) -> (r: bool)
        ensures
            r == self@.dom().contains(name@),
    {
        proof {
            use_type_invariant(self);
            self.lemma_keys();
        }
        self.find(name).is_some()
    }

    /// Sets the value of a name: a new name goes last, a known one keeps its place.
    pub fn insert(&mut self, name: String, v: V)
        ensures
            final(self)@ == old(self)@.insert(name@, v),
            old(self)@.dom().contains(name@) ==> final(self).keys() == old(self).keys(),
            !old(self)@.dom().contains(name@) ==> final(self).keys() == old(self).keys().push(name@),
    {
        proof {
            use_type_invariant(&*self);
            self.lemma_keys();
        }
        let found = self.find(name.as_str());
        let ghost old_keys = self.keys();
        let ghost old_map = self@;
        let ghost n = name@;
        let mut tmp = NameMap::new();
        std::mem::swap(&mut tmp, self);
        let NameMap { names: mut names, values: mut values } = tmp;
        match found {
            Some(i) => {
                values.set(i, v);
                let r = NameMap { names, values };
                proof {
                    assert(r.keys() == old_keys);
                    assert(r@ =~= old_map.insert(n, v));
                }
                *self = r;
            },
            None => {
                names.push(name);
                values.push(v);
                proof {
                    let keys = names@.map_values(|s: String| s@);
                    assert(keys =~= old_keys.push(n));
                    assert(keys.no_duplicates()) by {
                        assert forall|a: int, b: int|
                            0 <= a < b < keys.len() implies keys[a] != keys[b] by {
                            if b == old_keys.len() {
                                assert(old_keys.contains(old_keys[a]));
                            }
                        }
                    }
                }
                let r = NameMap { names, values };
                proof {
                    assert forall|k: Seq<char>| #[trigger] r@.dom().contains(k) == old_map.insert(n, v).dom().contains(k) by {
                        assert(r.keys().contains(k) <==> (old_keys.contains(k) || k == n)) by {
                            if r.keys().contains(k) {
                                let j = choose|j: int| 0 <= j < r.keys().len() && r.keys()[j] == k;
                                if j < old_keys.len() {
                                    assert(old_keys[j] == k);
                                }
                            }
                            if old_keys.contains(k) {
                                let j = choose|j: int| 0 <= j < old_keys.len() && old_keys[j] == k;
                                assert(r.keys()[j] == k);
                            }
                            if k == n {
                                assert(r.keys()[old_keys.len() as int] == k);
                            }
                        }
                    }
                    assert forall|k: Seq<char>| #[trigger] r@.dom().contains(k) implies r@[k] == old_map.insert(n, v)[k] by {
                        if k == n {
                            assert(r.keys()[old_keys.len() as int] == n);
                            r.keys().index_of_first(n);
                        } else {
                            let j = old_keys.index_of(k);
                            assert(old_keys[j] == k);
                            assert(r.keys()[j] == k);
                        }
                    }
                    assert(r@ =~= old_map.insert(n, v));
                }
                *self = r;
            },
        }
    }

    /// The names, in the order they were first inserted.
    pub fn names(&self) -> (r: &Vec<String>)
        ensures
            r@.map_values(|s: String| s@) == self.keys(),
            r@.len() == self.spec_len(),
    {
        &self.names
    }

    /// The name at a position, in insertion order.
    pub fn name_at(&self, i: usize) -> (r: &String)
        requires
            i < self.spec_len(),
        ensures
            r@ == self.keys()[i as int],
    {
        proof {
            use_type_invariant(self);
        }
        &self.names[i]
    }

    /// The value at a position, in insertion order.
    pub fn value_at_index(&self, i: usize) -> (r: V)
        requires
            i < self.spec_len(),
        ensures
            r == self.value_at(i as int),
            r == self@[self.keys()[i as int]],
    {
        proof {
            use_type_invariant(self);
            self.lemma_keys();
        }
        self.values[i]
    }

    /// A copy holding the same names and values, in the same order.
    pub fn duplicate(&self) -> (r: NameMap<V>)
        ensures
            r@ == self@,
            r.keys() == self.keys(),
    {
        proof {
            use_type_invariant(self);
        }
        let mut names: Vec<String> = Vec::new();
        let mut values: Vec<V> = Vec::new();
        let mut i: usize = 0;
        while i < self.names.len()
            invariant
                self.wf(),
                i <= self.names@.len(),
                names@.len() == i,
                values@.len() == i,
                forall|j: int| 0 <= j < i ==> names@[j]@ == self.names@[j]@,
                forall|j: int| 0 <= j < i ==> values@[j] == self.values@[j],
            decreases self.names@.len() - i,
        {
            names.push(self.names[i].clone());
            values.push(self.values[i]);
            i = i + 1;
        }
        proof {
            assert(names@.map_values(|s: String| s@) =~= self.keys());
            assert(values@ =~= self.values@);
        }
        let r = NameMap { names, values };
        assert(r.keys() =~= self.keys());
        assert(r@ =~= self@);
        r
    }
}

impl PartialEq for NameMap<WireValue> {
    fn eq(&self, other: &Self) -> (r: bool) {
        proof {
            use_type_invariant(self);
            use_type_invariant(other);
            self.lemma_keys();
            other.lemma_keys();
        }
        if self.names.len() != other.names.len() {
            proof {
                self.keys().unique_seq_to_set();
                other.keys().unique_seq_to_set();
                assert(self@.dom() =~= self.keys().to_set());
                assert(other@.dom() =~= other.keys().to_set());
            }
            return false;
        }
        let mut i: usize = 0;
        while i < self.names.len()
            invariant
                self.wf(),
                other.wf(),
                i <= self.spec_len(),
                self.spec_len() == self.names@.len(),
                self.keys().len() == self.spec_len(),
                forall|j: int|
                    0 <= j < self.spec_len() ==> #[trigger] self@.dom().contains(self.keys()[j])
                        && self@[self.keys()[j]] == self.value_at(j),
                forall|j: int|
                    0 <= j < i ==> #[trigger] other@.dom().contains(self.keys()[j])
                        && other@[self.keys()[j]] == self.value_at(j),
            decreases self.spec_len() - i,
        {
            proof {
                assert(self.keys()[i as int] == self.names@[i as int]@);
            }
            match other.get(self.names[i].as_str()) {
                Some(v) => {
                    if *v != self.values[i] {
                        proof {
                            assert(self@[self.keys()[i as int]] != other@[self.keys()[i as int]]);
                        }
                        return false;
                    }
                    assert(other@.dom().contains(self.keys()[i as int]) && other@[self.keys()[i as int]]
                        == self.value_at(i as int));
                },
                None => {
                    proof {
                        assert(self@.dom().contains(self.keys()[i as int]));
                    }
                    return false;
                },
            }
            let ghost prev = i;
            i = i + 1;
            assert forall|j: int| 0 <= j < i implies #[trigger] other@.dom().contains(self.keys()[j])
                && other@[self.keys()[j]] == self.value_at(j) by {
                if j < prev {
                } else {
                    assert(j == prev);
                }
            }
        }
        proof {
            self.keys().unique_seq_to_set();
            other.keys().unique_seq_to_set();
            assert(self@.dom() =~= self.keys().to_set());
            assert(other@.dom() =~= other.keys().to_set());
            assert(self@.dom().subset_of(other@.dom())) by {
                assert forall|k: Seq<char>| self@.dom().contains(k) implies other@.dom().contains(k) by {
                    let j = choose|j: int| 0 <= j < self.keys().len() && self.keys()[j] == k;
                    assert(other@.dom().contains(self.keys()[j]));
                }
            }
            vstd::set_lib::lemma_subset_equality(self@.dom(), other@.dom());
            assert forall|k: Seq<char>| self@.dom().contains(k) implies self@[k] == other@[k] by {
                let j = choose|j: int| 0 <= j < self.keys().len() && self.keys()[j] == k;
                assert(other@.dom().contains(self.keys()[j]));
            }
            assert(self@ =~= other@);
        }
        true
    }
}

impl vstd::std_specs::cmp::PartialEqSpecImpl for NameMap<WireValue> {
    open spec fn obeys_eq_spec() -> bool {
        true
    }

    open spec fn eq_spec(&self, other: &NameMap<WireValue>) -> bool {
        self@ == other@
    }
}

/// `after` is `before` with the wire `name` set to `v`; a new name goes last.
pub open spec fn wire_set(before: WireValues, name: Seq<char>, v: WireValue, after: WireValues) -> bool {
    &&& after@ == before@.insert(name, v)
    &&& after.keys() == if before@.dom().contains(name) {
        before.keys()
    } else {
        before.keys().push(name)
    }
}

} // verus!
