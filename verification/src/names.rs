//! Sets of names, kept in the order in which the names first arrived.
//!
//! A name is a character sequence. The model of a set is the sequence of its
//! names without repetition; an insertion appends a name that is new and
//! leaves the set alone otherwise.

use crate::text::views;
use vstd::prelude::*;

verus! {

pub type Name = Seq<char>;

/// `s` with `x` added at the end unless it is there already.
pub open spec fn with_name(s: Seq<Name>, x: Name) -> Seq<Name> {
    if s.contains(x) {
        s
    } else {
        s.push(x)
    }
}

/// `s` with the names of `t` added one after the other.
pub open spec fn with_names(s: Seq<Name>, t: Seq<Name>) -> Seq<Name>
    decreases t.len(),
{
    if t.len() == 0 {
        s
    } else {
        with_name(with_names(s, t.drop_last()), t.last())
    }
}

/// `i` is the first place at which `x` stands in `s`.
pub open spec fn first_at(s: Seq<Name>, x: Name, i: int) -> bool {
    &&& 0 <= i < s.len()
    &&& s[i] == x
    &&& forall|j: int| 0 <= j < i ==> s[j] != x
}

/// The first place at which `x` stands in `s`, if it stands there at all.
pub open spec fn first_index(s: Seq<Name>, x: Name) -> Option<int> {
    s.index_of_first(x)
}

/// `first_index` finds the first occurrence, and finds none only where there is none.
pub proof fn lemma_first_index(s: Seq<Name>, x: Name)
    ensures
        match first_index(s, x) {
            Some(i) => first_at(s, x, i),
            None => !s.contains(x),
        },
{
    s.index_of_first_ensures(x);
}

/// A first occurrence is what `first_index` returns.
pub proof fn lemma_first_index_is(s: Seq<Name>, x: Name, i: int)
    requires
        first_at(s, x, i),
    ensures
        first_index(s, x) == Some(i),
{
    s.index_of_first_ensures(x);
    assert(s.contains(x));
}

/// Adding a name keeps what was there, adds that name and nothing else, and
/// introduces no repetition.
pub proof fn lemma_with_name(s: Seq<Name>, x: Name)
    ensures
        forall|y: Name| #[trigger] with_name(s, x).contains(y) <==> s.contains(y) || y == x,
        s.no_duplicates() ==> with_name(s, x).no_duplicates(),
        s.len() <= with_name(s, x).len() <= s.len() + 1,
        with_name(s, x).take(s.len() as int) == s,
{
    let r = with_name(s, x);
    assert(r.take(s.len() as int) =~= s);
    assert forall|y: Name| #[trigger] r.contains(y) <==> s.contains(y) || y == x by {
        if s.contains(y) {
            let k = choose|k: int| 0 <= k < s.len() && s[k] == y;
            assert(r[k] == y);
        }
        if y == x && !s.contains(x) {
            assert(r[s.len() as int] == x);
        }
        if r.contains(y) && !s.contains(x) {
            let k = choose|k: int| 0 <= k < r.len() && r[k] == y;
            if k < s.len() {
                assert(s[k] == y);
            }
        }
    }
}

/// Adding several names keeps what was there, adds those names and nothing
/// else, and introduces no repetition.
pub proof fn lemma_with_names(s: Seq<Name>, t: Seq<Name>)
    ensures
        forall|y: Name| #[trigger] with_names(s, t).contains(y) <==> s.contains(y) || t.contains(y),
        s.no_duplicates() ==> with_names(s, t).no_duplicates(),
        s.len() <= with_names(s, t).len(),
    decreases t.len(),
{
    if t.len() > 0 {
        let init = t.drop_last();
        lemma_with_names(s, init);
        lemma_with_name(with_names(s, init), t.last());
        assert forall|y: Name| #[trigger] with_names(s, t).contains(y) <==> s.contains(y)
            || t.contains(y) by {
            if init.contains(y) {
                let k = choose|k: int| 0 <= k < init.len() && init[k] == y;
                assert(t[k] == y);
            }
            if t.contains(y) {
                let k = choose|k: int| 0 <= k < t.len() && t[k] == y;
                if k < init.len() {
                    assert(init[k] == y);
                }
            }
            assert(t[t.len() - 1] == t.last());
        }
    }
}

/// The first place at which `name` stands in `v`, if any.
pub fn find_name(v: &Vec<String>, name: &str) -> (r: Option<usize>)
    ensures
        match r {
            Some(i) => first_index(views(v@), name@) == Some(i as int) && i < v.len(),
            None => first_index(views(v@), name@).is_none(),
        },
        r.is_some() == views(v@).contains(name@),
{
    let key: String = name.to_owned();
    let mut i: usize = 0;
    while i < v.len()
        invariant
            i <= v.len(),
            key@ == name@,
            forall|j: int| 0 <= j < i ==> views(v@)[j] != name@,
        decreases v.len() - i,
    {
        if v[i] == key {
            proof {
                assert(views(v@)[i as int] == name@);
                lemma_first_index_is(views(v@), name@, i as int);
            }
            return Some(i);
        }
        i = i + 1;
    }
    proof {
        lemma_first_index(views(v@), name@);
    }
    None
}

/// A set of names.
#[derive(Debug)]
pub struct NameSet {
    items: Vec<String>,
}

impl View for NameSet {
    type V = Seq<Name>;

    closed spec fn view(&self) -> Seq<Name> {
        views(self.items@)
    }
}

impl NameSet {
    #[verifier::type_invariant]
    spec fn no_repeats(self) -> bool {
        views(self.items@).no_duplicates()
    }

    /// The empty set.
    pub fn new() -> (r: Self)
        ensures
            r@ == Seq::<Name>::empty(),
    {
        let r = NameSet { items: Vec::new() };
        assert(views(r.items@) =~= Seq::<Name>::empty());
        r
    }

    /// The number of names in the set.
    pub fn len(&self) -> (n: usize)
        ensures
            n == self@.len(),
            self@.no_duplicates(),
    {
        proof {
            use_type_invariant(self);
        }
        self.items.len()
    }

    /// Whether `name` is in the set.
    pub fn contains(&self, name: &str) -> (r: bool)
        ensures
            r == self@.contains(name@),
    {
        find_name(&self.items, name).is_some()
    }

    /// The name at place `i`, counting from the first that arrived.
    pub fn get(&self, i: usize) -> (r: &String)
        requires
            i < self@.len(),
        ensures
            r@ == self@[i as int],
    {
        &self.items[i]
    }

    /// Adds `name`. Returns whether it was new.
    pub fn insert(&mut self, name: &str) -> (fresh: bool)
        ensures
            final(self)@ == with_name(old(self)@, name@),
            fresh == !old(self)@.contains(name@),
    {
        proof {
            use_type_invariant(&*self);
        }
        if self.contains(name) {
            false
        } else {
            let ghost before = self@;
            let mut taken = NameSet { items: Vec::new() };
            assert(views(taken.items@) =~= Seq::<Name>::empty());
            core::mem::swap(self, &mut taken);
            let mut items = taken.items;
            items.push(name.to_owned());
            proof {
                assert(views(items@) =~= before.push(name@));
                lemma_with_name(before, name@);
            }
            *self = NameSet { items };
            true
        }
    }

    /// Adds every name of `other`, in the order of `other`.
    pub fn extend(&mut self, other: &NameSet)
        ensures
            final(self)@ == with_names(old(self)@, other@),
    {
        let mut i: usize = 0;
        while i < other.items.len()
            invariant
                i <= other.items.len(),
                self@ == with_names(old(self)@, other@.take(i as int)),
            decreases other.items.len() - i,
        {
            proof {
                assert(other@.take(i + 1).drop_last() =~= other@.take(i as int));
            }
            self.insert(other.items[i].as_str());
            i = i + 1;
        }
        proof {
            assert(other@.take(i as int) =~= other@);
        }
    }

    /// Adds every name of `names`, in order.
    pub fn extend_from(&mut self, names: &Vec<String>)
        ensures
            final(self)@ == with_names(old(self)@, views(names@)),
    {
        let mut i: usize = 0;
        while i < names.len()
            invariant
                i <= names.len(),
                self@ == with_names(old(self)@, views(names@).take(i as int)),
            decreases names.len() - i,
        {
            proof {
                assert(views(names@).take(i + 1).drop_last() =~= views(names@).take(i as int));
            }
            self.insert(names[i].as_str());
            i = i + 1;
        }
        proof {
            assert(views(names@).take(i as int) =~= views(names@));
        }
    }

    /// The names in the order in which they arrived.
    pub fn to_vec(&self) -> (r: Vec<String>)
        ensures
            views(r@) == self@,
    {
        let mut out: Vec<String> = Vec::new();
        let mut i: usize = 0;
        while i < self.items.len()
            invariant
                i <= self.items.len(),
                views(out@) == self@.take(i as int),
            decreases self.items.len() - i,
        {
            let ghost before = views(out@);
            let item = self.items[i].clone();
            out.push(item);
            proof {
                assert(views(out@) =~= before.push(self@[i as int]));
                assert(views(out@) =~= self@.take(i + 1));
            }
            i = i + 1;
        }
        proof {
            assert(self@.take(i as int) =~= self@);
        }
        out
    }
}

} // verus!
