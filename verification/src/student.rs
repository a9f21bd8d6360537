//! The model of one person, and the population keyed by canonical handle.

use crate::names::{first_index, lemma_first_index, lemma_first_index_is, Name, NameSet};
use crate::text::views;
use vstd::prelude::*;

verus! {

/// One person: who attracts them, who repels them, and whether they may work alone.
#[derive(Debug)]
pub struct Student {
    /// How to reach the person; a build puts the name of the classification
    /// record here.
    pub email: String,
    /// The canonical handle, by which the person is known.
    pub school_username: String,
    /// The secondary handle.
    pub github_username: String,
    /// Whom this person asked for.
    pub attractors: NameSet,
    /// Whom this person's categories draw them to.
    pub classification_attractors: NameSet,
    /// Whom this person must not be teamed with.
    pub repulsors: NameSet,
    /// The handles asked for, before they are folded into `attractors`.
    pub wants: Vec<String>,
    /// The handles refused, before they are folded into `repulsors`.
    pub vetos: Vec<String>,
    /// Whether the person may be set aside to work alone.
    pub ok_solo: bool,
}

/// What a `Student` holds, as plain mathematical values.
pub struct StudentModel {
    pub email: Name,
    pub school_username: Name,
    pub github_username: Name,
    pub attractors: Seq<Name>,
    pub classification_attractors: Seq<Name>,
    pub repulsors: Seq<Name>,
    pub wants: Seq<Name>,
    pub vetos: Seq<Name>,
    pub ok_solo: bool,
}

/// A person of whom nothing is known but who they are.
pub open spec fn new_student(email: Name, school_username: Name, github_username: Name) -> StudentModel {
    StudentModel {
        email,
        school_username,
        github_username,
        attractors: Seq::empty(),
        classification_attractors: Seq::empty(),
        repulsors: Seq::empty(),
        wants: Seq::empty(),
        vetos: Seq::empty(),
        ok_solo: false,
    }
}

impl View for Student {
    type V = StudentModel;

    open spec fn view(&self) -> StudentModel {
        StudentModel {
            email: self.email@,
            school_username: self.school_username@,
            github_username: self.github_username@,
            attractors: self.attractors@,
            classification_attractors: self.classification_attractors@,
            repulsors: self.repulsors@,
            wants: views(self.wants@),
            vetos: views(self.vetos@),
            ok_solo: self.ok_solo,
        }
    }
}

impl Student {
    /// A person with no preferences yet, who may not work alone.
    pub fn new(email: String, school_username: String, github_username: String) -> (r: Self)
        ensures
            r@ == new_student(email@, school_username@, github_username@),
    {
        let r = Student {
            email,
            school_username,
            github_username,
            attractors: NameSet::new(),
            classification_attractors: NameSet::new(),
            repulsors: NameSet::new(),
            vetos: Vec::new(),
            wants: Vec::new(),
            ok_solo: false,
        };
        assert(views(r.wants@) =~= Seq::<Name>::empty());
        assert(views(r.vetos@) =~= Seq::<Name>::empty());
        r
    }
}

/// The models of a sequence of people.
pub open spec fn models(v: Seq<Student>) -> Seq<StudentModel> {
    Seq::new(v.len(), |i: int| v[i]@)
}

/// The canonical handles of a sequence of people, in order.
pub open spec fn handles(people: Seq<StudentModel>) -> Seq<Name> {
    Seq::new(people.len(), |i: int| people[i].school_username)
}

/// The person with handle `h`, if there is one.
pub open spec fn person(people: Seq<StudentModel>, h: Name) -> Option<StudentModel> {
    match first_index(handles(people), h) {
        Some(i) => Some(people[i]),
        None => None,
    }
}

/// Whether `h` is the handle of one of `people`.
pub open spec fn known(people: Seq<StudentModel>, h: Name) -> bool {
    handles(people).contains(h)
}

/// `people` enrolled one after the other: a person whose handle is taken
/// already is left out.
pub open spec fn enrolled(people: Seq<StudentModel>) -> Seq<StudentModel>
    decreases people.len(),
{
    if people.len() == 0 {
        Seq::empty()
    } else {
        let before = enrolled(people.drop_last());
        if known(before, people.last().school_username) {
            before
        } else {
            before.push(people.last())
        }
    }
}

/// Where no two people share a handle, everybody is enrolled.
pub proof fn lemma_enrolled_all(people: Seq<StudentModel>)
    requires
        handles(people).no_duplicates(),
    ensures
        enrolled(people) == people,
    decreases people.len(),
{
    if people.len() > 0 {
        let init = people.drop_last();
        assert(handles(init) =~= handles(people).drop_last());
        lemma_enrolled_all(init);
        if known(init, people.last().school_username) {
            let j = choose|j: int|
                0 <= j < handles(init).len() && handles(init)[j] == people.last().school_username;
            assert(handles(people)[j] == handles(people)[people.len() - 1]);
        }
        assert(init.push(people.last()) =~= people);
    }
}

/// Where the person with handle `handle` stands in `v`, if there is one.
pub fn find_student(v: &Vec<Student>, handle: &str) -> (r: Option<usize>)
    ensures
        match r {
            Some(i) => first_index(handles(models(v@)), handle@) == Some(i as int) && i < v.len(),
            None => first_index(handles(models(v@)), handle@).is_none(),
        },
        r.is_some() == known(models(v@), handle@),
{
    let key: String = handle.to_owned();
    let ghost hs = handles(models(v@));
    let mut i: usize = 0;
    while i < v.len()
        invariant
            i <= v.len(),
            key@ == handle@,
            hs == handles(models(v@)),
            forall|j: int| 0 <= j < i ==> hs[j] != handle@,
        decreases v.len() - i,
    {
        if v[i].school_username == key {
            proof {
                assert(hs[i as int] == handle@);
                lemma_first_index_is(hs, handle@, i as int);
            }
            return Some(i);
        }
        i = i + 1;
    }
    proof {
        lemma_first_index(hs, handle@);
    }
    None
}

/// The population: people keyed by canonical handle, in the order in which
/// they were added. No handle occurs twice.
#[derive(Debug)]
pub struct Students {
    items: Vec<Student>,
}

impl View for Students {
    type V = Seq<StudentModel>;

    closed spec fn view(&self) -> Seq<StudentModel> {
        models(self.items@)
    }
}

impl Students {
    #[verifier::type_invariant]
    spec fn distinct_handles(self) -> bool {
        handles(models(self.items@)).no_duplicates()
    }

    /// The empty population.
    pub fn new() -> (r: Self)
        ensures
            r@ == Seq::<StudentModel>::empty(),
    {
        let r = Students { items: Vec::new() };
        assert(models(r.items@) =~= Seq::<StudentModel>::empty());
        assert(handles(models(r.items@)) =~= Seq::<Name>::empty());
        r
    }

    /// The population made of `people`, taken in order; of people who share
    /// a handle only the first is kept.
    pub fn from_people(people: Vec<Student>) -> (r: Self)
        ensures
            r@ == enrolled(models(people@)),
    {
        let ghost given = people@;
        let ghost all = models(given);
        let n = people.len();
        let mut rest = people;
        let mut turned: Vec<Student> = Vec::new();
        while rest.len() > 0
            invariant
                n == given.len(),
                rest@.len() + turned@.len() == n,
                forall|j: int| 0 <= j < turned@.len() ==> turned@[j] == given[n - 1 - j],
                forall|j: int| 0 <= j < rest@.len() ==> rest@[j] == given[j],
            decreases rest.len(),
        {
            let s = rest.pop().unwrap();
            turned.push(s);
        }
        let mut out = Students::new();
        proof {
            assert(all.take(0) =~= Seq::<StudentModel>::empty());
        }
        while turned.len() > 0
            invariant
                n == given.len(),
                all == models(given),
                turned@.len() <= n,
                forall|j: int| 0 <= j < turned@.len() ==> turned@[j] == given[n - 1 - j],
                out@ == enrolled(all.take(n - turned@.len())),
            decreases turned.len(),
        {
            let ghost k = n - turned@.len();
            let s = turned.pop().unwrap();
            proof {
                assert(s == given[k]);
                assert(all.take(k + 1).drop_last() =~= all.take(k));
                assert(all.take(k + 1).last() == s@);
            }
            out.insert(s);
        }
        proof {
            assert(all.take(n as int) =~= all);
        }
        out
    }

    /// The number of people. No two of them share a handle.
    pub fn len(&self) -> (n: usize)
        ensures
            n == self@.len(),
            handles(self@).no_duplicates(),
    {
        proof {
            use_type_invariant(self);
        }
        self.items.len()
    }

    /// Where the person with handle `handle` stands, if there is one.
    pub fn find(&self, handle: &str) -> (r: Option<usize>)
        ensures
            match r {
                Some(i) => first_index(handles(self@), handle@) == Some(i as int) && i < self@.len(),
                None => first_index(handles(self@), handle@).is_none(),
            },
            r.is_some() == known(self@, handle@),
    {
        find_student(&self.items, handle)
    }

    /// Whether there is a person with handle `handle`.
    pub fn contains_key(&self, handle: &str) -> (r: bool)
        ensures
            r == known(self@, handle@),
    {
        find_student(&self.items, handle).is_some()
    }

    /// The person with handle `handle`, if there is one.
    pub fn get(&self, handle: &str) -> (r: Option<&Student>)
        ensures
            match r {
                Some(s) => person(self@, handle@) == Some(s@),
                None => person(self@, handle@).is_none(),
            },
    {
        match find_student(&self.items, handle) {
            Some(i) => Some(&self.items[i]),
            None => None,
        }
    }

    /// The person at place `i`.
    pub fn at(&self, i: usize) -> (r: &Student)
        requires
            i < self@.len(),
        ensures
            r@ == self@[i as int],
    {
        &self.items[i]
    }

    /// Adds `student` unless someone has that handle already. Returns
    /// whether the person was added.
    pub fn insert(&mut self, student: Student) -> (added: bool)
        ensures
            added == !known(old(self)@, student@.school_username),
            final(self)@ == if added {
                old(self)@.push(student@)
            } else {
                old(self)@
            },
    {
        proof {
            use_type_invariant(&*self);
        }
        if find_student(&self.items, student.school_username.as_str()).is_some() {
            false
        } else {
            let ghost before = self@;
            let mut taken = Students { items: Vec::new() };
            assert(handles(models(taken.items@)) =~= Seq::<Name>::empty());
            core::mem::swap(self, &mut taken);
            let mut items = taken.items;
            items.push(student);
            proof {
                assert(models(items@) =~= before.push(student@));
                assert(handles(models(items@)) =~= handles(before).push(student@.school_username));
            }
            *self = Students { items };
            true
        }
    }

    /// The handles of all people, in order.
    pub fn handle_list(&self) -> (r: Vec<String>)
        ensures
            views(r@) == handles(self@),
            handles(self@).no_duplicates(),
    {
        proof {
            use_type_invariant(self);
        }
        let mut out: Vec<String> = Vec::new();
        let mut i: usize = 0;
        while i < self.items.len()
            invariant
                i <= self.items.len(),
                views(out@) == handles(self@).take(i as int),
            decreases self.items.len() - i,
        {
            let ghost before = views(out@);
            let h = self.items[i].school_username.clone();
            out.push(h);
            proof {
                assert(views(out@) =~= before.push(handles(self@)[i as int]));
                assert(views(out@) =~= handles(self@).take(i + 1));
            }
            i = i + 1;
        }
        proof {
            assert(handles(self@).take(i as int) =~= handles(self@));
        }
        out
    }
}

} // verus!
