//! What the category tables hold once people are seeded and the rules
//! between categories are applied, said without regard to the order of the
//! records.

use crate::fusion::{
    blank, filed_all, lemma_related_all_keeps, related, related_all, seeded_all, Fusion,
};
use crate::index::{keys_of, lemma_put, names_under, with_key, with_name_under, with_names_under};
use crate::names::{
    lemma_first_index, lemma_with_name, lemma_with_names, with_name, with_names, Name,
};
use crate::records::{text_or_empty, ClassificationRelations, StudentClassification};
use crate::student::new_student;
use crate::text::split_on;
use vstd::prelude::*;

verus! {

/// After names are filed under a key, a name stands under a key where it
/// stood there before, or where it is one of the names and the key is that key.
pub proof fn lemma_with_names_under_holds(
    m: Seq<(Name, Seq<Name>)>,
    k: Name,
    xs: Seq<Name>,
    other: Name,
    x: Name,
)
    ensures
        names_under(with_names_under(m, k, xs), other).contains(x) <==> names_under(
            m,
            other,
        ).contains(x) || (other == k && xs.contains(x)),
{
    lemma_put(m, k, with_names(names_under(m, k), xs));
    lemma_with_names(names_under(m, k), xs);
}

/// After a name is filed under a key, a name stands under a key where it
/// stood there before, or where it is that name and the key is that key.
pub proof fn lemma_with_name_under_holds(
    m: Seq<(Name, Seq<Name>)>,
    k: Name,
    h: Name,
    other: Name,
    x: Name,
)
    ensures
        names_under(with_name_under(m, k, h), other).contains(x) <==> names_under(
            m,
            other,
        ).contains(x) || (other == k && x == h),
{
    lemma_put(m, k, with_name(names_under(m, k), h));
    lemma_with_name(names_under(m, k), h);
}

/// Whether record `c` lists `label` among its categories.
pub open spec fn lists(c: StudentClassification, label: Name) -> bool {
    label.len() > 0 && split_on(text_or_empty(c.classifications), ',').contains(label)
}

/// Whether one of the records `sc` is of `h` and lists `label`.
pub open spec fn listed(sc: Seq<StudentClassification>, h: Name, label: Name) -> bool {
    exists|i: int| 0 <= i < sc.len() && (#[trigger] sc[i]).school_username@ == h && lists(sc[i], label)
}

/// After a handle is filed under labels, a name is a member of a category
/// where it was one before, or where it is that handle and the category is
/// one of the labels and not the empty text.
pub proof fn lemma_filed_all_members(f: Fusion, handle: Name, labels: Seq<Name>, label: Name, x: Name)
    ensures
        names_under(filed_all(f, handle, labels).members, label).contains(x) <==> names_under(
            f.members,
            label,
        ).contains(x) || (x == handle && label.len() > 0 && labels.contains(label)),
    decreases labels.len(),
{
    if labels.len() > 0 {
        let init = labels.drop_last();
        let g = filed_all(f, handle, init);
        lemma_filed_all_members(f, handle, init, label, x);
        if labels.last().len() > 0 {
            lemma_with_name_under_holds(g.members, labels.last(), handle, label, x);
        }
        if init.contains(label) {
            let j = choose|j: int| 0 <= j < init.len() && init[j] == label;
            assert(labels[j] == label);
        }
        if labels.contains(label) {
            let j = choose|j: int| 0 <= j < labels.len() && labels[j] == label;
            if j < init.len() {
                assert(init[j] == label);
            }
        }
        assert(labels[labels.len() - 1] == labels.last());
    }
}

/// The members of a category, once all people are seeded, are the people
/// whose record lists the category, whatever the order of the records.
pub proof fn lemma_seeded_members(sc: Seq<StudentClassification>, label: Name, x: Name)
    ensures
        match seeded_all(blank(), sc) {
            Ok(g) => names_under(g.members, label).contains(x) <==> listed(sc, x, label),
            Err(_) => true,
        },
    decreases sc.len(),
{
    if sc.len() == 0 {
        lemma_first_index(keys_of(blank().members), label);
    } else {
        let init = sc.drop_last();
        lemma_seeded_members(init, label, x);
        match seeded_all(blank(), init) {
            Ok(g) => {
                let c = sc.last();
                let handle = c.school_username@;
                let fresh = Fusion {
                    people: g.people.push(new_student(c.name@, handle, c.github_username@)),
                    labels: with_key(g.labels, handle),
                    ..g
                };
                lemma_filed_all_members(
                    fresh,
                    handle,
                    split_on(text_or_empty(c.classifications), ','),
                    label,
                    x,
                );
                if listed(init, x, label) {
                    let i = choose|i: int|
                        0 <= i < init.len() && (#[trigger] init[i]).school_username@ == x && lists(
                            init[i],
                            label,
                        );
                    assert(sc[i] == init[i]);
                }
                if listed(sc, x, label) {
                    let i = choose|i: int|
                        0 <= i < sc.len() && (#[trigger] sc[i]).school_username@ == x && lists(
                            sc[i],
                            label,
                        );
                    if i < init.len() {
                        assert(init[i] == sc[i]);
                    }
                }
                assert(sc[sc.len() - 1] == c);
            },
            Err(_) => {},
        }
    }
}

/// Whether rule `r` lets the members of its object category attract those
/// of `subject`, and `x` is such a member in `members`.
pub open spec fn attracts(
    members: Seq<(Name, Seq<Name>)>,
    r: ClassificationRelations,
    subject: Name,
    x: Name,
) -> bool {
    r.class@ == subject && r.relation@.contains('+') && names_under(members, r.class_other@).contains(
        x,
    )
}

/// Whether rule `r` lets the members of its object category repel those of
/// `subject`, and `x` is such a member in `members`.
pub open spec fn repels_through(
    members: Seq<(Name, Seq<Name>)>,
    r: ClassificationRelations,
    subject: Name,
    x: Name,
) -> bool {
    r.class@ == subject && r.relation@.contains('-') && names_under(members, r.class_other@).contains(
        x,
    )
}

/// What one rule adds to the two rule tables.
pub proof fn lemma_related_holds(f: Fusion, r: ClassificationRelations, subject: Name, x: Name)
    ensures
        names_under(related(f, r).attracted, subject).contains(x) <==> names_under(
            f.attracted,
            subject,
        ).contains(x) || attracts(f.members, r, subject, x),
        names_under(related(f, r).repelled, subject).contains(x) <==> names_under(
            f.repelled,
            subject,
        ).contains(x) || repels_through(f.members, r, subject, x),
        related(f, r).members == f.members,
{
    let objects = names_under(f.members, r.class_other@);
    let none = Seq::<Name>::empty();
    lemma_with_names_under_holds(f.attracted, r.class@, objects, subject, x);
    lemma_with_names_under_holds(f.repelled, r.class@, objects, subject, x);
    lemma_with_names_under_holds(f.attracted, r.class@, none, subject, x);
    lemma_with_names_under_holds(f.repelled, r.class@, none, subject, x);
    assert(with_names_under(f.attracted, r.class@, none) == with_key(f.attracted, r.class@));
    assert(with_names_under(f.repelled, r.class@, none) == with_key(f.repelled, r.class@));
}

/// Once the rules are applied, who attracts a category is who attracted it
/// before and every member of the object category of a `+` rule that has
/// the category as its subject; likewise who repels it, with `-` rules. The
/// order of the rules does not matter.
pub proof fn lemma_related_all_holds(
    f: Fusion,
    cr: Seq<ClassificationRelations>,
    subject: Name,
    x: Name,
)
    ensures
        names_under(related_all(f, cr).attracted, subject).contains(x) <==> names_under(
            f.attracted,
            subject,
        ).contains(x) || exists|i: int|
            0 <= i < cr.len() && attracts(f.members, #[trigger] cr[i], subject, x),
        names_under(related_all(f, cr).repelled, subject).contains(x) <==> names_under(
            f.repelled,
            subject,
        ).contains(x) || exists|i: int|
            0 <= i < cr.len() && repels_through(f.members, #[trigger] cr[i], subject, x),
    decreases cr.len(),
{
    if cr.len() > 0 {
        let init = cr.drop_last();
        let g = related_all(f, init);
        lemma_related_all_holds(f, init, subject, x);
        lemma_related_all_keeps(f, init);
        lemma_related_holds(g, cr.last(), subject, x);
        assert(cr[cr.len() - 1] == cr.last());
        if exists|i: int| 0 <= i < init.len() && attracts(f.members, #[trigger] init[i], subject, x) {
            let i = choose|i: int|
                0 <= i < init.len() && attracts(f.members, #[trigger] init[i], subject, x);
            assert(cr[i] == init[i]);
        }
        if exists|i: int| 0 <= i < cr.len() && attracts(f.members, #[trigger] cr[i], subject, x) {
            let i = choose|i: int|
                0 <= i < cr.len() && attracts(f.members, #[trigger] cr[i], subject, x);
            if i < init.len() {
                assert(init[i] == cr[i]);
            }
        }
        if exists|i: int|
            0 <= i < init.len() && repels_through(f.members, #[trigger] init[i], subject, x) {
            let i = choose|i: int|
                0 <= i < init.len() && repels_through(f.members, #[trigger] init[i], subject, x);
            assert(cr[i] == init[i]);
        }
        if exists|i: int|
            0 <= i < cr.len() && repels_through(f.members, #[trigger] cr[i], subject, x) {
            let i = choose|i: int|
                0 <= i < cr.len() && repels_through(f.members, #[trigger] cr[i], subject, x);
            if i < init.len() {
                assert(init[i] == cr[i]);
            }
        }
    }
}

} // verus!
