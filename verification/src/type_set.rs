//! Sets of tile-type names.

use bevy::utils::HashSet;
use vstd::prelude::*;

verus! {

/// A set of tile-type names.
///
/// The names are held in a `bevy::utils::HashSet`, which is hashbrown's
/// `HashSet` with the hasher of ahash. What the functions of that set do is
/// taken on trust: each function below that calls one says in its contract
/// what is believed of the call.
#[verifier::external_body]
#[derive(Debug)]
pub struct TypeSet {
    names: HashSet<String>,
}

/// The names that the hash set of a `TypeSet` holds, each as the characters
/// it is made of.
pub uninterp spec fn type_set_names(set: TypeSet) -> Set<Seq<char>>;

/// The names of a list of strings, in the list's order.
pub open spec fn names_of(list: Seq<String>) -> Seq<Seq<char>> {
    list.map_values(|name: String| name@)
}

/// Whether `names` is a finite set of exactly `count` names.
pub open spec fn is_count_of(count: nat, names: Set<Seq<char>>) -> bool {
    names.finite() && names.len() == count
}

impl View for TypeSet {
    type V = Set<Seq<char>>;

    open spec fn view(&self) -> Set<Seq<char>> {
        type_set_names(*self)
    }
}

impl Clone for TypeSet {
    fn clone(&self) -> (set: TypeSet)
        ensures
            set@ == self@,
    {
        self.duplicate()
    }
}

impl TypeSet {
    /// Calls `HashSet::default`: the result holds no name.
    #[verifier::external_body]
    pub(crate) fn empty() -> (set: TypeSet)
        ensures
            type_set_names(set) == Set::<Seq<char>>::empty(),
    {
        TypeSet { names: HashSet::default() }
    }

    /// Calls `HashSet::insert`: afterwards the set holds `name` besides what
    /// it held before, and the result tells whether `name` is new to it.
    #[verifier::external_body]
    pub(crate) fn add(&mut self, name: String) -> (fresh: bool)
        ensures
            final(self)@ == old(self)@.insert(name@),
            fresh == !old(self)@.contains(name@),
    {
        self.names.insert(name)
    }

    /// Calls `HashSet::contains`: the result tells whether the set holds
    /// `name`.
    #[verifier::external_body]
    pub(crate) fn has(&self, name: &str) -> (found: bool)
        ensures
            found == self@.contains(name@),
    {
        self.names.contains(name)
    }

    /// Calls `HashSet::len`: the set holds finitely many names, and the
    /// result is their number.
    #[verifier::external_body]
    pub(crate) fn count(&self) -> (n: usize)
        ensures
            is_count_of(n as nat, self@),
    {
        self.names.len()
    }

    /// Calls `HashSet::iter` and copies what it yields: every name of the set
    /// once, in an order that the hasher decides and that differs from run
    /// to run.
    #[verifier::external_body]
    pub(crate) fn members(&self) -> (names: Vec<String>)
        ensures
            names_of(names@).no_duplicates(),
            names_of(names@).to_set() == self@,
    {
        self.names.iter().cloned().collect()
    }

    /// Calls `HashSet::clone`: the result is a second set with the same
    /// names.
    #[verifier::external_body]
    fn duplicate(&self) -> (set: TypeSet)
        ensures
            set@ == self@,
    {
        TypeSet { names: self.names.clone() }
    }

    /// The set of the names in `names`; a name listed twice is held once.
    pub fn from_names(names: &Vec<String>) -> (set: TypeSet)
        ensures
            set@ == names_of(names@).to_set(),
    {
        let mut set = TypeSet::empty();
        let mut i: usize = 0;
        while i < names.len()
            invariant
                i <= names.len(),
                set@ == names_of(names@).take(i as int).to_set(),
            decreases names.len() - i,
        {
            let ghost before = names_of(names@).take(i as int);
            let ghost after = names_of(names@).take(i + 1);
            set.add(names[i].clone());
            assert(set@ =~= after.to_set()) by {
                assert(after == before.push(names[i as int]@));
                assert forall|name: Seq<char>| after.to_set().contains(name) implies set@.contains(
                    name,
                ) by {
                    let k = choose|k: int| 0 <= k < after.len() && after[k] == name;
                    if k < i {
                        assert(before[k] == name);
                    }
                }
                assert forall|name: Seq<char>| set@.contains(name) implies after.to_set().contains(
                    name,
                ) by {
                    if name == names[i as int]@ {
                        assert(after[i as int] == name);
                    } else {
                        let k = choose|k: int| 0 <= k < before.len() && before[k] == name;
                        assert(after[k] == name);
                    }
                }
            }
            i += 1;
        }
        assert(names_of(names@).take(names.len() as int) == names_of(names@));
        set
    }

    /// The names of the set, each once and in no particular order.
    pub fn names(&self) -> (names: Vec<String>)
        ensures
            names_of(names@).no_duplicates(),
            names_of(names@).to_set() == self@,
    {
        self.members()
    }

    /// Whether every name of this set is a name of `other`.
    pub fn is_subset_of(&self, other: &TypeSet) -> (ok: bool)
        ensures
            ok == self@.subset_of(other@),
    {
        let names = self.members();
        let mut i: usize = 0;
        while i < names.len()
            invariant
                i <= names.len(),
                names_of(names@).to_set() == self@,
                forall|k: int| 0 <= k < i ==> other@.contains(#[trigger] names_of(names@)[k]),
            decreases names.len() - i,
        {
            if !other.has(names[i].as_str()) {
                assert(names_of(names@)[i as int] == names[i as int]@);
                assert(names_of(names@).to_set().contains(names_of(names@)[i as int]));
                return false;
            }
            i += 1;
        }
        assert forall|name: Seq<char>| self@.contains(name) implies other@.contains(name) by {
            let k = choose|k: int| 0 <= k < names_of(names@).len() && names_of(names@)[k] == name;
            assert(other@.contains(names_of(names@)[k]));
        }
        true
    }
}

} // verus!
