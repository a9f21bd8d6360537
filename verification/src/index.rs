//! Tables keyed by name: from a label to the set of names filed under it,
//! and from a secondary handle to the canonical one.
//!
//! The model of a table is the sequence of its entries in the order in which
//! their keys first arrived. No key occurs twice.

use crate::names::{
    find_name, first_index, lemma_first_index, lemma_first_index_is, with_name, with_names, Name,
    NameSet,
};
use crate::text::views;
use vstd::prelude::*;

verus! {

/// The keys of the entries of `m`, in order.
pub open spec fn keys_of<V>(m: Seq<(Name, V)>) -> Seq<Name> {
    Seq::new(m.len(), |i: int| m[i].0)
}

/// The value filed under `k`, if `k` is a key of `m`.
pub open spec fn lookup<V>(m: Seq<(Name, V)>, k: Name) -> Option<V> {
    match first_index(keys_of(m), k) {
        Some(i) => Some(m[i].1),
        None => None,
    }
}

/// `m` with `v` filed under `k`: in place of the old value where `k` is a
/// key already, as a new last entry otherwise.
pub open spec fn put<V>(m: Seq<(Name, V)>, k: Name, v: V) -> Seq<(Name, V)> {
    match first_index(keys_of(m), k) {
        Some(i) => m.update(i, (k, v)),
        None => m.push((k, v)),
    }
}

/// The names filed under `k`; none where `k` is no key.
pub open spec fn names_under(m: Seq<(Name, Seq<Name>)>, k: Name) -> Seq<Name> {
    match lookup(m, k) {
        Some(s) => s,
        None => Seq::empty(),
    }
}

/// `m` with `k` as a key, with no names under it if it is new.
pub open spec fn with_key(m: Seq<(Name, Seq<Name>)>, k: Name) -> Seq<(Name, Seq<Name>)> {
    put(m, k, names_under(m, k))
}

/// `m` with `x` added to the names under `k`.
pub open spec fn with_name_under(m: Seq<(Name, Seq<Name>)>, k: Name, x: Name) -> Seq<
    (Name, Seq<Name>),
> {
    put(m, k, with_name(names_under(m, k), x))
}

/// `m` with the names `xs` added to the names under `k`.
pub open spec fn with_names_under(m: Seq<(Name, Seq<Name>)>, k: Name, xs: Seq<Name>) -> Seq<
    (Name, Seq<Name>),
> {
    put(m, k, with_names(names_under(m, k), xs))
}

/// What `put` does to the keys and to every lookup.
pub proof fn lemma_put<V>(m: Seq<(Name, V)>, k: Name, v: V)
    ensures
        lookup(put(m, k, v), k) == Some(v),
        forall|other: Name| other != k ==> #[trigger] lookup(put(m, k, v), other) == lookup(m, other),
        keys_of(put(m, k, v)) == with_name(keys_of(m), k),
        keys_of(m).no_duplicates() ==> keys_of(put(m, k, v)).no_duplicates(),
{
    let keys = keys_of(m);
    let after = put(m, k, v);
    lemma_first_index(keys, k);
    crate::names::lemma_with_name(keys, k);
    match first_index(keys, k) {
        Some(i) => {
            assert(keys.contains(k));
            assert(keys_of(after) =~= keys);
            lemma_first_index_is(keys_of(after), k, i);
        },
        None => {
            assert(keys_of(after) =~= keys.push(k));
            assert(keys_of(after)[m.len() as int] == k);
            lemma_first_index_is(keys_of(after), k, m.len() as int);
        },
    }
    assert forall|other: Name| other != k implies #[trigger] lookup(after, other) == lookup(
        m,
        other,
    ) by {
        lemma_first_index(keys, other);
        lemma_first_index(keys_of(after), other);
        match first_index(keys, other) {
            Some(j) => {
                assert(keys_of(after)[j] == other);
                lemma_first_index_is(keys_of(after), other, j);
            },
            None => {
                if keys_of(after).contains(other) {
                    let j = choose|j: int| 0 <= j < keys_of(after).len() && keys_of(after)[j]
                        == other;
                    if j < keys.len() {
                        assert(keys[j] == other);
                    }
                }
            },
        }
    }
}

/// Making a key known first changes nothing about filing names under it,
/// and filing no names under a key only makes it known.
pub proof fn lemma_with_key_then_names(m: Seq<(Name, Seq<Name>)>, k: Name, xs: Seq<Name>)
    ensures
        with_names_under(with_key(m, k), k, xs) == with_names_under(m, k, xs),
        with_names_under(m, k, Seq::empty()) == with_key(m, k),
{
    let keys = keys_of(m);
    let known_m = with_key(m, k);
    lemma_first_index(keys, k);
    lemma_put(m, k, names_under(m, k));
    lemma_first_index(keys_of(known_m), k);
    match first_index(keys, k) {
        Some(i) => {
            assert(known_m =~= m);
        },
        None => {
            lemma_first_index_is(keys_of(known_m), k, m.len() as int);
            assert(with_names_under(known_m, k, xs) =~= with_names_under(m, k, xs));
        },
    }
}

/// A table from labels to sets of names.
#[derive(Debug)]
pub struct NameIndex {
    keys: Vec<String>,
    sets: Vec<NameSet>,
}

impl View for NameIndex {
    type V = Seq<(Name, Seq<Name>)>;

    closed spec fn view(&self) -> Seq<(Name, Seq<Name>)> {
        Seq::new(self.keys@.len(), |i: int| (self.keys@[i]@, self.sets@[i]@))
    }
}

impl NameIndex {
    #[verifier::type_invariant]
    spec fn well_formed(self) -> bool {
        &&& self.keys@.len() == self.sets@.len()
        &&& views(self.keys@).no_duplicates()
    }

    /// The empty table.
    pub fn new() -> (r: Self)
        ensures
            r@ == Seq::<(Name, Seq<Name>)>::empty(),
    {
        let r = NameIndex { keys: Vec::new(), sets: Vec::new() };
        assert(r@ =~= Seq::<(Name, Seq<Name>)>::empty());
        r
    }

    /// The number of keys.
    pub fn len(&self) -> (n: usize)
        ensures
            n == self@.len(),
            keys_of(self@).no_duplicates(),
    {
        proof {
            use_type_invariant(self);
            assert(keys_of(self@) =~= views(self.keys@));
        }
        self.keys.len()
    }

    /// The key of entry `i`.
    pub fn key_at(&self, i: usize) -> (r: &String)
        requires
            i < self@.len(),
        ensures
            r@ == self@[i as int].0,
    {
        &self.keys[i]
    }

    /// The names of entry `i`.
    pub fn set_at(&self, i: usize) -> (r: &NameSet)
        requires
            i < self@.len(),
        ensures
            r@ == self@[i as int].1,
    {
        proof {
            use_type_invariant(self);
        }
        &self.sets[i]
    }

    /// The names filed under `key`, if `key` is a key.
    pub fn get(&self, key: &str) -> (r: Option<&NameSet>)
        ensures
            match r {
                Some(s) => lookup(self@, key@) == Some(s@),
                None => lookup(self@, key@).is_none(),
            },
    {
        proof {
            use_type_invariant(self);
            assert(keys_of(self@) =~= views(self.keys@));
        }
        match find_name(&self.keys, key) {
            Some(i) => Some(&self.sets[i]),
            None => None,
        }
    }

    /// Whether `key` is a key.
    pub fn has_key(&self, key: &str) -> (r: bool)
        ensures
            r == keys_of(self@).contains(key@),
            r == lookup(self@, key@).is_some(),
    {
        proof {
            use_type_invariant(self);
            assert(keys_of(self@) =~= views(self.keys@));
        }
        find_name(&self.keys, key).is_some()
    }

    /// Makes `key` a key, with no names under it if it is new.
    pub fn ensure(&mut self, key: &str)
        ensures
            final(self)@ == with_key(old(self)@, key@),
    {
        let empty = NameSet::new();
        self.add_all(key, &empty);
    }

    /// Adds `name` to the names under `key`.
    pub fn add(&mut self, key: &str, name: &str)
        ensures
            final(self)@ == with_name_under(old(self)@, key@, name@),
    {
        let mut one = NameSet::new();
        one.insert(name);
        proof {
            let s = names_under(old(self)@, key@);
            assert(seq![name@].drop_last() =~= Seq::<Name>::empty());
            assert(with_names(s, seq![name@]) == with_name(s, name@)) by {
                reveal_with_fuel(with_names, 2);
            }
            assert(one@ =~= seq![name@]);
        }
        self.add_all(key, &one);
    }

    /// Adds the names of `names` to the names under `key`.
    pub fn add_all(&mut self, key: &str, names: &NameSet)
        ensures
            final(self)@ == with_names_under(old(self)@, key@, names@),
    {
        proof {
            use_type_invariant(&*self);
            assert(keys_of(self@) =~= views(self.keys@));
        }
        let ghost before = self@;
        let found = find_name(&self.keys, key);
        let mut taken = NameIndex { keys: Vec::new(), sets: Vec::new() };
        core::mem::swap(self, &mut taken);
        let mut keys = taken.keys;
        let mut sets = taken.sets;
        match found {
            Some(i) => {
                let ghost old_sets = sets@;
                sets[i].extend(names);
                proof {
                    lemma_first_index(keys_of(before), key@);
                    assert(sets@[i as int]@ == with_names(old_sets[i as int]@, names@));
                    assert(forall|j: int| 0 <= j < sets@.len() && j != i ==> sets@[j] == old_sets[j]);
                    assert(before[i as int].1 == old_sets[i as int]@);
                    let after = Seq::new(keys@.len(), |j: int| (keys@[j]@, sets@[j]@));
                    assert(after =~= with_names_under(before, key@, names@));
                }
            },
            None => {
                let mut fresh = NameSet::new();
                fresh.extend(names);
                let ghost old_keys = views(keys@);
                keys.push(key.to_owned());
                sets.push(fresh);
                proof {
                    assert(views(keys@) =~= old_keys.push(key@));
                    crate::names::lemma_with_name(old_keys, key@);
                    let after = Seq::new(keys@.len(), |j: int| (keys@[j]@, sets@[j]@));
                    assert(after =~= with_names_under(before, key@, names@));
                }
            },
        }
        *self = NameIndex { keys, sets };
    }
}

/// A table from secondary handles to canonical handles.
#[derive(Debug)]
pub struct AliasTable {
    keys: Vec<String>,
    targets: Vec<String>,
}

impl View for AliasTable {
    type V = Seq<(Name, Name)>;

    closed spec fn view(&self) -> Seq<(Name, Name)> {
        Seq::new(self.keys@.len(), |i: int| (self.keys@[i]@, self.targets@[i]@))
    }
}

impl AliasTable {
    #[verifier::type_invariant]
    spec fn well_formed(self) -> bool {
        &&& self.keys@.len() == self.targets@.len()
        &&& views(self.keys@).no_duplicates()
    }

    /// The empty table.
    pub fn new() -> (r: Self)
        ensures
            r@ == Seq::<(Name, Name)>::empty(),
    {
        let r = AliasTable { keys: Vec::new(), targets: Vec::new() };
        assert(r@ =~= Seq::<(Name, Name)>::empty());
        r
    }

    /// The number of aliases.
    pub fn len(&self) -> (n: usize)
        ensures
            n == self@.len(),
            keys_of(self@).no_duplicates(),
    {
        proof {
            use_type_invariant(self);
            assert(keys_of(self@) =~= views(self.keys@));
        }
        self.keys.len()
    }

    /// The canonical handle that `alias` stands for, if it is an alias.
    pub fn get(&self, alias: &str) -> (r: Option<&String>)
        ensures
            match r {
                Some(s) => lookup(self@, alias@) == Some(s@),
                None => lookup(self@, alias@).is_none(),
            },
    {
        proof {
            use_type_invariant(self);
            assert(keys_of(self@) =~= views(self.keys@));
        }
        match find_name(&self.keys, alias) {
            Some(i) => Some(&self.targets[i]),
            None => None,
        }
    }

    /// Lets `alias` stand for `target`, in place of what it stood for before.
    pub fn set(&mut self, alias: &str, target: &str)
        ensures
            final(self)@ == put(old(self)@, alias@, target@),
    {
        proof {
            use_type_invariant(&*self);
            assert(keys_of(self@) =~= views(self.keys@));
        }
        let ghost before = self@;
        let found = find_name(&self.keys, alias);
        let mut taken = AliasTable { keys: Vec::new(), targets: Vec::new() };
        core::mem::swap(self, &mut taken);
        let mut keys = taken.keys;
        let mut targets = taken.targets;
        match found {
            Some(i) => {
                targets.set(i, target.to_owned());
                proof {
                    lemma_first_index(keys_of(before), alias@);
                    let after = Seq::new(keys@.len(), |j: int| (keys@[j]@, targets@[j]@));
                    assert(after =~= put(before, alias@, target@));
                }
            },
            None => {
                let ghost old_keys = views(keys@);
                keys.push(alias.to_owned());
                targets.push(target.to_owned());
                proof {
                    assert(views(keys@) =~= old_keys.push(alias@));
                    crate::names::lemma_with_name(old_keys, alias@);
                    let after = Seq::new(keys@.len(), |j: int| (keys@[j]@, targets@[j]@));
                    assert(after =~= put(before, alias@, target@));
                }
            },
        }
        *self = AliasTable { keys, targets };
    }
}

} // verus!
