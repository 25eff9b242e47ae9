//! Sets and maps keyed by identifiers.
use vstd::prelude::*;
use vstd::std_specs::cmp::PartialEqSpec;

verus! {

/// A set of identifiers.
#[derive(Debug)]
pub struct IdentSet {
    names: Vec<String>,
}

impl IdentSet {
    #[verifier::type_invariant]
    closed spec fn distinct(self) -> bool {
        forall|i: int, j: int|
            0 <= i < j < self.names.len() ==> #[trigger] self.names@[i]@ != #[trigger] self.names@[j]@
    }
}

impl View for IdentSet {
    type V = Set<Seq<char>>;

    closed spec fn view(&self) -> Set<Seq<char>> {
        Set::new(|k: Seq<char>| exists|i: int| 0 <= i < self.names.len() && #[trigger] self.names@[i]@ == k)
    }
}

impl IdentSet {
    /// The empty set.
    pub fn new() -> (r: IdentSet)
        ensures
            r@ == Set::<Seq<char>>::empty(),
    {
        let r = IdentSet { names: Vec::new() };
        assert(r@ =~= Set::<Seq<char>>::empty());
        r
    }

    fn position(&self, name: &String) -> (r: Option<usize>)
        ensures
            match r {
                Some(i) => i < self.names.len() && self.names@[i as int]@ == name@,
                None => forall|i: int| 0 <= i < self.names.len() ==> #[trigger] self.names@[i]@ != name@,
            },
    {
        let mut i: usize = 0;
        while i < self.names.len()
            invariant
                i <= self.names.len(),
                forall|j: int| 0 <= j < i ==> #[trigger] self.names@[j]@ != name@,
            decreases self.names.len() - i,
        {
            if self.names[i] == *name {
                return Some(i);
            }
            i = i + 1;
        }
        None
    }

    /// Whether `name` is in the set.
    pub fn contains(&self, name: &str) -> (r: bool)
        ensures
            r == self@.contains(name@),
    {
        let n = String::from_str(name);
        match self.position(&n) {
            Some(i) => {
                assert(self.names@[i as int]@ == name@);
                true
            },
            None => false,
        }
    }

    /// Adds `name` to the set.
    pub fn insert(&mut self, name: String)
        ensures
            final(self)@ == old(self)@.insert(name@),
    {
        proof {
            use_type_invariant(&*self);
        }
        match self.position(&name) {
            Some(i) => {
                assert(self@ =~= old(self)@.insert(name@));
            },
            None => {
                let ghost n = name@;
                let mut names: Vec<String> = Vec::new();
                std::mem::swap(&mut names, &mut self.names);
                names.push(name);
                self.names = names;
                assert(self@ =~= old(self)@.insert(n)) by {
                    assert(self.names@[old(self).names.len() as int]@ == n);
                    assert forall|k: Seq<char>| old(self)@.contains(k) implies self@.contains(k) by {
                        let i = choose|i: int| 0 <= i < old(self).names.len() && #[trigger] old(self).names@[i]@ == k;
                        assert(self.names@[i]@ == k);
                    }
                }
            },
        }
    }
}

impl IdentSet {
    /// Whether every name of `other` is in this set.
    fn includes(&self, other: &IdentSet) -> (r: bool)
        ensures
            r == other@.subset_of(self@),
    {
        let mut i: usize = 0;
        while i < other.names.len()
            invariant
                i <= other.names.len(),
                forall|j: int| 0 <= j < i ==> self@.contains(#[trigger] other.names@[j]@),
            decreases other.names.len() - i,
        {
            match self.position(&other.names[i]) {
                Some(p) => {
                    assert(self@.contains(other.names@[i as int]@));
                },
                None => {
                    assert(!self@.contains(other.names@[i as int]@));
                    assert(other@.contains(other.names@[i as int]@));
                    return false;
                },
            }
            i = i + 1;
        }
        assert forall|k: Seq<char>| other@.contains(k) implies self@.contains(k) by {
            let j = choose|j: int| 0 <= j < other.names.len() && #[trigger] other.names@[j]@ == k;
        }
        true
    }
}

/// Two sets are equal when they hold the same names, in whatever order
/// they were inserted.
impl PartialEq for IdentSet {
    fn eq(&self, other: &IdentSet) -> (r: bool) {
        let a = self.includes(other);
        let b = other.includes(self);
        proof {
            if a && b {
                assert(self@ =~= other@);
            }
        }
        a && b
    }
}

impl vstd::std_specs::cmp::PartialEqSpecImpl for IdentSet {
    open spec fn obeys_eq_spec() -> bool {
        true
    }

    open spec fn eq_spec(&self, other: &IdentSet) -> bool {
        self@ == other@
    }
}

/// Two sets of identifiers compare equal exactly when they hold the same
/// names, whatever order these were inserted in; so `==` on sets is
/// symmetric.
pub proof fn law_sets_equal_when_same_names(a: IdentSet, b: IdentSet)
    ensures
        IdentSet::obeys_eq_spec(),
        a.eq_spec(&b) <==> (forall|x: Seq<char>| a@.contains(x) <==> b@.contains(x)),
        a.eq_spec(&a),
        a.eq_spec(&b) == b.eq_spec(&a),
{
    if forall|x: Seq<char>| a@.contains(x) <==> b@.contains(x) {
        assert(a@ =~= b@);
    }
}

/// A map from identifiers to values.
#[derive(Debug)]
pub struct IdentMap<V> {
    entries: Vec<(String, V)>,
}

impl<V> IdentMap<V> {
    #[verifier::type_invariant]
    closed spec fn distinct(self) -> bool {
        forall|i: int, j: int|
            0 <= i < j < self.entries.len() ==> #[trigger] self.entries@[i].0@ != #[trigger] self.entries@[j].0@
    }

    closed spec fn index_of(self, k: Seq<char>) -> int {
        choose|i: int| 0 <= i < self.entries.len() && #[trigger] self.entries@[i].0@ == k
    }
}

impl<V: View> View for IdentMap<V> {
    type V = Map<Seq<char>, V::V>;

    closed spec fn view(&self) -> Map<Seq<char>, V::V> {
        Map::new(
            |k: Seq<char>| exists|i: int| 0 <= i < self.entries.len() && #[trigger] self.entries@[i].0@ == k,
            |k: Seq<char>| self.entries@[self.index_of(k)].1@,
        )
    }
}

impl<V: View> IdentMap<V> {
    /// The empty map.
    pub fn new() -> (r: IdentMap<V>)
        ensures
            r@ == Map::<Seq<char>, V::V>::empty(),
    {
        let r = IdentMap { entries: Vec::new() };
        assert(r@ =~= Map::<Seq<char>, V::V>::empty());
        r
    }

    fn position(&self, name: &String) -> (r: Option<usize>)
        ensures
            match r {
                Some(i) => i < self.entries.len() && self.entries@[i as int].0@ == name@,
                None => forall|i: int| 0 <= i < self.entries.len() ==> #[trigger] self.entries@[i].0@ != name@,
            },
    {
        let mut i: usize = 0;
        while i < self.entries.len()
            invariant
                i <= self.entries.len(),
                forall|j: int| 0 <= j < i ==> #[trigger] self.entries@[j].0@ != name@,
            decreases self.entries.len() - i,
        {
            if self.entries[i].0 == *name {
                return Some(i);
            }
            i = i + 1;
        }
        None
    }

    /// The value of `name`, if it has one.
    pub fn get(&self, name: &str) -> (r: Option<&V>)
        ensures
            match r {
                Some(v) => self@.contains_key(name@) && v@ == self@[name@],
                None => !self@.contains_key(name@),
            },
    {
        proof {
            use_type_invariant(self);
        }
        let n = String::from_str(name);
        match self.position(&n) {
            Some(i) => {
                assert(self.entries@[i as int].0@ == name@);
                assert(self.index_of(name@) == i as int);
                Some(&self.entries[i].1)
            },
            None => None,
        }
    }

    /// Gives `name` the value `value`, in place of the one it had.
    pub fn insert(&mut self, name: String, value: V)
        ensures
            final(self)@ == old(self)@.insert(name@, value@),
    {
        proof {
            use_type_invariant(&*self);
        }
        let ghost n = name@;
        let ghost val = value@;
        match self.position(&name) {
            Some(i) => {
                let mut entries: Vec<(String, V)> = Vec::new();
                std::mem::swap(&mut entries, &mut self.entries);
                entries.set(i, (name, value));
                self.entries = entries;
                assert(self@ =~= old(self)@.insert(n, val)) by {
                    assert(self.entries@[i as int].0@ == n);
                    assert(self.index_of(n) == i as int);
                    assert forall|k: Seq<char>| #[trigger] old(self)@.contains_key(k) && k != n implies
                        self@.contains_key(k) && self@[k] == old(self)@[k] by {
                        let j = old(self).index_of(k);
                        assert(self.entries@[j].0@ == k);
                        assert(self.index_of(k) == j);
                    }
                    assert forall|k: Seq<char>| #[trigger] self@.contains_key(k) implies
                        old(self)@.insert(n, val).contains_key(k) by {
                        let j = self.index_of(k);
                        if j != i {
                            assert(old(self).entries@[j].0@ == k);
                        }
                    }
                }
            },
            None => {
                let mut entries: Vec<(String, V)> = Vec::new();
                std::mem::swap(&mut entries, &mut self.entries);
                entries.push((name, value));
                self.entries = entries;
                let ghost last = old(self).entries.len() as int;
                assert(self@ =~= old(self)@.insert(n, val)) by {
                    assert(self.entries@[last].0@ == n);
                    assert(self.index_of(n) == last);
                    assert forall|k: Seq<char>| #[trigger] old(self)@.contains_key(k) && k != n implies
                        self@.contains_key(k) && self@[k] == old(self)@[k] by {
                        let j = old(self).index_of(k);
                        assert(self.entries@[j].0@ == k);
                        assert(self.index_of(k) == j);
                    }
                    assert forall|k: Seq<char>| #[trigger] self@.contains_key(k) implies
                        old(self)@.insert(n, val).contains_key(k) by {
                        let j = self.index_of(k);
                        if j != last {
                            assert(old(self).entries@[j].0@ == k);
                        }
                    }
                }
            },
        }
    }
}

/// A name given a value has that value, and the other names keep theirs:
/// what `get` reads back of what `insert` wrote.
pub proof fn law_get_after_insert<V: View>(
    before: IdentMap<V>,
    after: IdentMap<V>,
    name: Seq<char>,
    value: V::V,
    other: Seq<char>,
)
    requires
        after@ == before@.insert(name, value),
    ensures
        after@.contains_key(name),
        after@[name] == value,
        other != name ==> after@.contains_key(other) == before@.contains_key(other),
        other != name && before@.contains_key(other) ==> after@[other] == before@[other],
{
}

/// A name added to a set is in it, and the other names are in it exactly
/// when they were before.
pub proof fn law_contains_after_insert(before: IdentSet, after: IdentSet, name: Seq<char>, other: Seq<char>)
    requires
        after@ == before@.insert(name),
    ensures
        after@.contains(name),
        other != name ==> after@.contains(other) == before@.contains(other),
{
}

} // verus!
