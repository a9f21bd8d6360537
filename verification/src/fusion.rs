//! The model of a build: what each step makes of the state, as plain
//! mathematical values.
//!
//! The records are taken in the order in which they are given. People are
//! seeded and filed under their categories, the rules between categories are
//! applied, aliases are collected, each survey record is fused into its
//! person, and at last every person's lists and categories are merged into
//! the sets that the solver reads.

use crate::index::{lookup, names_under, put, with_key, with_name_under, with_names_under};
use crate::names::{first_index, lemma_first_index, with_names, Name};
use crate::phrases::{rule_for, vocabulary, RuleModel};
use crate::records::{
    text_or_empty, ClassificationRelations, StudentClassification, StudentFeedback,
};
use crate::report::{Failure, WarningModel};
use crate::student::{handles, known, new_student, StudentModel};
use crate::text::{canonical, split_on, trimmed};
use vstd::prelude::*;

verus! {

/// The state of a build, as plain mathematical values.
pub struct Fusion {
    /// The people seeded so far, in order.
    pub people: Seq<StudentModel>,
    /// From a category to its members.
    pub members: Seq<(Name, Seq<Name>)>,
    /// From a handle to the categories it is filed under.
    pub labels: Seq<(Name, Seq<Name>)>,
    /// From a category to the people who attract its members.
    pub attracted: Seq<(Name, Seq<Name>)>,
    /// From a category to the people who repel its members.
    pub repelled: Seq<(Name, Seq<Name>)>,
    /// From a secondary handle to the canonical one.
    pub aliases: Seq<(Name, Name)>,
    /// The warnings given so far, in order.
    pub warnings: Seq<WarningModel>,
}

/// The state before any record was read.
pub open spec fn blank() -> Fusion {
    Fusion {
        people: Seq::empty(),
        members: Seq::empty(),
        labels: Seq::empty(),
        attracted: Seq::empty(),
        repelled: Seq::empty(),
        aliases: Seq::empty(),
        warnings: Seq::empty(),
    }
}

/// `f` with `handle` filed under `label`. The empty text is no category.
pub open spec fn filed(f: Fusion, handle: Name, label: Name) -> Fusion {
    if label.len() == 0 {
        f
    } else {
        Fusion {
            members: with_name_under(f.members, label, handle),
            labels: with_name_under(f.labels, handle, label),
            ..f
        }
    }
}

/// `f` with `handle` filed under each of `labels`, in order.
pub open spec fn filed_all(f: Fusion, handle: Name, labels: Seq<Name>) -> Fusion
    decreases labels.len(),
{
    if labels.len() == 0 {
        f
    } else {
        filed(filed_all(f, handle, labels.drop_last()), handle, labels.last())
    }
}

/// `f` with the person of record `c` added and filed under the categories
/// that the record lists.
pub open spec fn seeded(f: Fusion, c: StudentClassification) -> Fusion {
    let handle = c.school_username@;
    let fresh = Fusion {
        people: f.people.push(new_student(c.name@, handle, c.github_username@)),
        labels: with_key(f.labels, handle),
        ..f
    };
    filed_all(fresh, handle, split_on(text_or_empty(c.classifications), ','))
}

/// `f` with the people of all records `sc` added in order; the first record
/// whose handle is taken already is an error.
pub open spec fn seeded_all(f: Fusion, sc: Seq<StudentClassification>) -> Result<Fusion, Failure>
    decreases sc.len(),
{
    if sc.len() == 0 {
        Ok(f)
    } else {
        match seeded_all(f, sc.drop_last()) {
            Err(e) => Err(e),
            Ok(g) => {
                let handle = sc.last().school_username@;
                if known(g.people, handle) {
                    Err(Failure::DuplicateHandle { handle })
                } else {
                    Ok(seeded(g, sc.last()))
                }
            },
        }
    }
}

/// Once a record has failed, the records after it change nothing.
pub proof fn lemma_seeded_all_fails(f: Fusion, sc: Seq<StudentClassification>, n: int)
    requires
        0 <= n <= sc.len(),
        seeded_all(f, sc.take(n)).is_err(),
    ensures
        seeded_all(f, sc) == seeded_all(f, sc.take(n)),
    decreases sc.len(),
{
    if n < sc.len() {
        assert(sc.drop_last().take(n) =~= sc.take(n));
        lemma_seeded_all_fails(f, sc.drop_last(), n);
    } else {
        assert(sc.take(n) =~= sc);
    }
}

/// `f` after rule `r`: its subject category is known to both rule tables,
/// and the present members of its object category attract (`+`) or repel
/// (`-`) the members of the subject category.
pub open spec fn related(f: Fusion, r: ClassificationRelations) -> Fusion {
    let objects = names_under(f.members, r.class_other@);
    Fusion {
        attracted: if r.relation@.contains('+') {
            with_names_under(f.attracted, r.class@, objects)
        } else {
            with_key(f.attracted, r.class@)
        },
        repelled: if r.relation@.contains('-') {
            with_names_under(f.repelled, r.class@, objects)
        } else {
            with_key(f.repelled, r.class@)
        },
        ..f
    }
}

/// `f` after all rules `cr`, in order.
pub open spec fn related_all(f: Fusion, cr: Seq<ClassificationRelations>) -> Fusion
    decreases cr.len(),
{
    if cr.len() == 0 {
        f
    } else {
        related(related_all(f, cr.drop_last()), cr.last())
    }
}

/// `f` after those rules of `cr` whose object category is `label`, in order.
pub open spec fn related_through(f: Fusion, cr: Seq<ClassificationRelations>, label: Name) -> Fusion
    decreases cr.len(),
{
    if cr.len() == 0 {
        f
    } else {
        let g = related_through(f, cr.drop_last(), label);
        if cr.last().class_other@ == label {
            related(g, cr.last())
        } else {
            g
        }
    }
}

/// `f` with the alias that each survey record declares, later records first
/// in precedence.
pub open spec fn aliased_all(f: Fusion, fb: Seq<StudentFeedback>) -> Fusion
    decreases fb.len(),
{
    if fb.len() == 0 {
        f
    } else {
        let g = aliased_all(f, fb.drop_last());
        Fusion { aliases: put(g.aliases, fb.last().github_username@, fb.last().school_username@), ..g }
    }
}

/// Whether a person may work alone after answering `answer`: `Yes` and `No`
/// decide, any other answer leaves what was known before.
pub open spec fn solo_after(before: bool, answer: Name) -> bool {
    if answer == "Yes"@ {
        true
    } else if answer == "No"@ {
        false
    } else {
        before
    }
}

/// The canonical handle that `given` stands for: what the alias table says,
/// or else `given` itself where it is the handle of a person.
pub open spec fn resolved(f: Fusion, given: Name) -> Option<Name> {
    match lookup(f.aliases, given) {
        Some(h) => Some(h),
        None => if known(f.people, given) {
            Some(given)
        } else {
            None
        },
    }
}

/// A build together with the refusals and wishes that one survey record has
/// staged from its feedback on a former teammate.
pub struct Staged {
    pub fusion: Fusion,
    pub vetos: Seq<Name>,
    pub wants: Seq<Name>,
}

/// `st` after one phrase with rule `rule` was said of `teammate`: a refusal
/// or a wish is staged, and where the rule names a category, the teammate is
/// filed under it and the rules with that category as object are applied again.
pub open spec fn heard(
    st: Staged,
    cr: Seq<ClassificationRelations>,
    teammate: Name,
    rule: RuleModel,
) -> Staged {
    Staged {
        fusion: match rule.category {
            Some(c) => related_through(filed(st.fusion, teammate, c), cr, c),
            None => st.fusion,
        },
        vetos: if rule.veto {
            st.vetos.push(teammate)
        } else {
            st.vetos
        },
        wants: if rule.want {
            st.wants.push(teammate)
        } else {
            st.wants
        },
    }
}

/// `st` after all `phrases` were said of `teammate`, each trimmed and looked
/// up in `table`; the first phrase that the table does not hold is an error.
pub open spec fn heard_all(
    st: Staged,
    cr: Seq<ClassificationRelations>,
    table: Seq<RuleModel>,
    teammate: Name,
    phrases: Seq<Name>,
) -> Result<Staged, Failure>
    decreases phrases.len(),
{
    if phrases.len() == 0 {
        Ok(st)
    } else {
        match heard_all(st, cr, table, teammate, phrases.drop_last()) {
            Err(e) => Err(e),
            Ok(s) => {
                let phrase = trimmed(phrases.last());
                match rule_for(table, phrase) {
                    None => Err(Failure::UnknownPhrase { phrase }),
                    Some(rule) => Ok(heard(s, cr, teammate, rule)),
                }
            },
        }
    }
}

/// Once a phrase has failed, the phrases after it change nothing.
pub proof fn lemma_heard_all_fails(
    st: Staged,
    cr: Seq<ClassificationRelations>,
    table: Seq<RuleModel>,
    teammate: Name,
    phrases: Seq<Name>,
    n: int,
)
    requires
        0 <= n <= phrases.len(),
        heard_all(st, cr, table, teammate, phrases.take(n)).is_err(),
    ensures
        heard_all(st, cr, table, teammate, phrases) == heard_all(
            st,
            cr,
            table,
            teammate,
            phrases.take(n),
        ),
    decreases phrases.len(),
{
    if n < phrases.len() {
        assert(phrases.drop_last().take(n) =~= phrases.take(n));
        lemma_heard_all_fails(st, cr, table, teammate, phrases.drop_last(), n);
    } else {
        assert(phrases.take(n) =~= phrases);
    }
}

/// The most entries of an explicit list that are kept.
pub const MAX_EXPLICIT: usize = 3;

/// The canonical form of an explicit field, where the field is present and
/// names a person; nothing otherwise.
pub open spec fn named(hs: Seq<Name>, field: Option<String>) -> Seq<Name> {
    match field {
        Some(s) => if hs.contains(canonical(s@)) {
            seq![canonical(s@)]
        } else {
            Seq::empty()
        },
        None => Seq::empty(),
    }
}

/// The canonical form of an explicit field, where the field is present and
/// names nobody; nothing otherwise.
pub open spec fn refused(hs: Seq<Name>, field: Option<String>) -> Seq<Name> {
    match field {
        Some(s) => if hs.contains(canonical(s@)) {
            Seq::empty()
        } else {
            seq![canonical(s@)]
        },
        None => Seq::empty(),
    }
}

/// `l` without repetitions: of equal names the first stays.
pub open spec fn distinct(l: Seq<Name>) -> Seq<Name> {
    with_names(Seq::empty(), l)
}

/// The explicit list that is kept of `l`: going from the last entry back to
/// the first, each name is taken where it is met first, until three are
/// taken. So of equal entries the last counts, and later entries come
/// before earlier ones.
pub open spec fn capped(l: Seq<Name>) -> Seq<Name> {
    let d = distinct(l.reverse());
    if d.len() <= MAX_EXPLICIT {
        d
    } else {
        d.take(MAX_EXPLICIT as int)
    }
}

/// One warning for each refused handle that names nobody.
pub open spec fn invalid_vetos(student: Name, dropped: Seq<Name>) -> Seq<WarningModel> {
    Seq::new(dropped.len(), |i: int| WarningModel::InvalidVeto { student, handle: dropped[i] })
}

/// One warning for each wanted handle that names nobody.
pub open spec fn invalid_wants(student: Name, dropped: Seq<Name>) -> Seq<WarningModel> {
    Seq::new(dropped.len(), |i: int| WarningModel::InvalidWant { student, handle: dropped[i] })
}

/// What the build has staged for survey record `rec` once its feedback on
/// the former teammate is heard. Nothing is heard where the record names no
/// teammate or the name cannot be resolved.
pub open spec fn staged_for(
    f: Fusion,
    cr: Seq<ClassificationRelations>,
    table: Seq<RuleModel>,
    rec: StudentFeedback,
) -> Result<Staged, Failure> {
    let start = Staged { fusion: f, vetos: Seq::empty(), wants: Seq::empty() };
    match rec.last_teammate_github_username {
        Some(given) => match resolved(f, given@) {
            Some(teammate) => heard_all(
                start,
                cr,
                table,
                teammate,
                split_on(text_or_empty(rec.last_teammate_feedback), ','),
            ),
            None => Ok(start),
        },
        None => Ok(start),
    }
}

/// Person `p` after survey record `rec`, with `hs` the handles of the
/// population and `st` what the record's feedback has staged.
pub open spec fn answered(p: StudentModel, hs: Seq<Name>, st: Staged, rec: StudentFeedback) -> StudentModel {
    StudentModel {
        ok_solo: solo_after(p.ok_solo, rec.solo@),
        vetos: capped(p.vetos + named(hs, rec.veto0) + named(hs, rec.veto1) + named(hs, rec.veto2))
            + st.vetos,
        wants: capped(p.wants + named(hs, rec.want0) + named(hs, rec.want1) + named(hs, rec.want2))
            + st.wants,
        ..p
    }
}

/// `f` after survey record `rec`. A record of a person who is not in the
/// population leaves a warning and nothing else.
pub open spec fn fused(
    f: Fusion,
    cr: Seq<ClassificationRelations>,
    table: Seq<RuleModel>,
    rec: StudentFeedback,
) -> Result<Fusion, Failure> {
    let handle = rec.school_username@;
    match first_index(handles(f.people), handle) {
        None => Ok(
            Fusion { warnings: f.warnings.push(WarningModel::UnknownStudent { handle }), ..f },
        ),
        Some(i) => match staged_for(f, cr, table, rec) {
            Err(e) => Err(e),
            Ok(st) => {
                let g = st.fusion;
                let hs = handles(g.people);
                Ok(
                    Fusion {
                        people: g.people.update(i, answered(g.people[i], hs, st, rec)),
                        warnings: g.warnings + invalid_vetos(
                            handle,
                            refused(hs, rec.veto0) + refused(hs, rec.veto1) + refused(hs, rec.veto2),
                        ) + invalid_wants(
                            handle,
                            refused(hs, rec.want0) + refused(hs, rec.want1) + refused(hs, rec.want2),
                        ),
                        ..g
                    },
                )
            },
        },
    }
}

/// `f` after all survey records `fb`, in order, up to the first that fails.
pub open spec fn fused_all(
    f: Fusion,
    cr: Seq<ClassificationRelations>,
    table: Seq<RuleModel>,
    fb: Seq<StudentFeedback>,
) -> Result<Fusion, Failure>
    decreases fb.len(),
{
    if fb.len() == 0 {
        Ok(f)
    } else {
        match fused_all(f, cr, table, fb.drop_last()) {
            Err(e) => Err(e),
            Ok(g) => fused(g, cr, table, fb.last()),
        }
    }
}

/// Once a survey record has failed, the records after it change nothing.
pub proof fn lemma_fused_all_fails(
    f: Fusion,
    cr: Seq<ClassificationRelations>,
    table: Seq<RuleModel>,
    fb: Seq<StudentFeedback>,
    n: int,
)
    requires
        0 <= n <= fb.len(),
        fused_all(f, cr, table, fb.take(n)).is_err(),
    ensures
        fused_all(f, cr, table, fb) == fused_all(f, cr, table, fb.take(n)),
    decreases fb.len(),
{
    if n < fb.len() {
        assert(fb.drop_last().take(n) =~= fb.take(n));
        lemma_fused_all_fails(f, cr, table, fb.drop_last(), n);
    } else {
        assert(fb.take(n) =~= fb);
    }
}

/// Person `p` after the rules of each of `labels` are drawn in: who attracts
/// the category joins the classification attractors, who repels it joins
/// the repulsors.
pub open spec fn drawn(f: Fusion, p: StudentModel, labels: Seq<Name>) -> StudentModel
    decreases labels.len(),
{
    if labels.len() == 0 {
        p
    } else {
        let q = drawn(f, p, labels.drop_last());
        StudentModel {
            classification_attractors: with_names(
                q.classification_attractors,
                names_under(f.attracted, labels.last()),
            ),
            repulsors: with_names(q.repulsors, names_under(f.repelled, labels.last())),
            ..q
        }
    }
}

/// One warning for each of `labels` that no rule has as its subject.
pub open spec fn unrelated(f: Fusion, student: Name, labels: Seq<Name>) -> Seq<WarningModel>
    decreases labels.len(),
{
    if labels.len() == 0 {
        Seq::empty()
    } else {
        let before = unrelated(f, student, labels.drop_last());
        if lookup(f.attracted, labels.last()).is_none() && lookup(f.repelled, labels.last()).is_none() {
            before.push(WarningModel::UnrelatedCategory { category: labels.last(), student })
        } else {
            before
        }
    }
}

/// Person `p` with the explicit lists folded into the sets and the rules of
/// the person's categories drawn in.
pub open spec fn merged(f: Fusion, p: StudentModel) -> StudentModel {
    drawn(
        f,
        StudentModel {
            repulsors: with_names(p.repulsors, p.vetos),
            attractors: with_names(p.attractors, p.wants),
            ..p
        },
        names_under(f.labels, p.school_username),
    )
}

/// `f` with the first `n` people merged.
pub open spec fn merged_all(f: Fusion, n: nat) -> Fusion
    decreases n,
{
    if n == 0 {
        f
    } else {
        let g = merged_all(f, (n - 1) as nat);
        let p = f.people[n - 1];
        Fusion {
            people: g.people.update(n - 1, merged(f, p)),
            warnings: g.warnings + unrelated(
                f,
                p.school_username,
                names_under(f.labels, p.school_username),
            ),
            ..g
        }
    }
}

/// The model that the three record streams give, or why they give none.
pub open spec fn matrix(
    fb: Seq<StudentFeedback>,
    sc: Seq<StudentClassification>,
    cr: Seq<ClassificationRelations>,
) -> Result<Fusion, Failure> {
    match seeded_all(blank(), sc) {
        Err(e) => Err(e),
        Ok(a) => match fused_all(aliased_all(related_all(a, cr), fb), cr, vocabulary(), fb) {
            Err(e) => Err(e),
            Ok(c) => Ok(merged_all(c, c.people.len())),
        },
    }
}

/// Filing touches the two category tables and nothing else.
pub proof fn lemma_filed_all_keeps(f: Fusion, handle: Name, labels: Seq<Name>)
    ensures
        filed_all(f, handle, labels).people == f.people,
        filed_all(f, handle, labels).attracted == f.attracted,
        filed_all(f, handle, labels).repelled == f.repelled,
        filed_all(f, handle, labels).aliases == f.aliases,
        filed_all(f, handle, labels).warnings == f.warnings,
    decreases labels.len(),
{
    if labels.len() > 0 {
        lemma_filed_all_keeps(f, handle, labels.drop_last());
    }
}

/// Applying rules touches the two rule tables and nothing else.
pub proof fn lemma_related_all_keeps(f: Fusion, cr: Seq<ClassificationRelations>)
    ensures
        related_all(f, cr).people == f.people,
        related_all(f, cr).members == f.members,
        related_all(f, cr).labels == f.labels,
        related_all(f, cr).aliases == f.aliases,
        related_all(f, cr).warnings == f.warnings,
    decreases cr.len(),
{
    if cr.len() > 0 {
        lemma_related_all_keeps(f, cr.drop_last());
    }
}

/// Applying the rules of one object category touches the two rule tables
/// and nothing else.
pub proof fn lemma_related_through_keeps(f: Fusion, cr: Seq<ClassificationRelations>, label: Name)
    ensures
        related_through(f, cr, label).people == f.people,
        related_through(f, cr, label).members == f.members,
        related_through(f, cr, label).labels == f.labels,
        related_through(f, cr, label).aliases == f.aliases,
        related_through(f, cr, label).warnings == f.warnings,
    decreases cr.len(),
{
    if cr.len() > 0 {
        lemma_related_through_keeps(f, cr.drop_last(), label);
    }
}

/// Collecting aliases touches the alias table and nothing else.
pub proof fn lemma_aliased_all_keeps(f: Fusion, fb: Seq<StudentFeedback>)
    ensures
        aliased_all(f, fb).people == f.people,
        aliased_all(f, fb).members == f.members,
        aliased_all(f, fb).labels == f.labels,
        aliased_all(f, fb).attracted == f.attracted,
        aliased_all(f, fb).repelled == f.repelled,
        aliased_all(f, fb).warnings == f.warnings,
    decreases fb.len(),
{
    if fb.len() > 0 {
        lemma_aliased_all_keeps(f, fb.drop_last());
    }
}

/// Hearing feedback changes no person, no alias and no warning.
pub proof fn lemma_heard_all_keeps(
    st: Staged,
    cr: Seq<ClassificationRelations>,
    table: Seq<RuleModel>,
    teammate: Name,
    phrases: Seq<Name>,
)
    ensures
        match heard_all(st, cr, table, teammate, phrases) {
            Ok(s) => s.fusion.people == st.fusion.people && s.fusion.aliases == st.fusion.aliases
                && s.fusion.warnings == st.fusion.warnings,
            Err(_) => true,
        },
    decreases phrases.len(),
{
    if phrases.len() > 0 {
        lemma_heard_all_keeps(st, cr, table, teammate, phrases.drop_last());
        match heard_all(st, cr, table, teammate, phrases.drop_last()) {
            Ok(s) => {
                match rule_for(table, trimmed(phrases.last())) {
                    Some(rule) => {
                        match rule.category {
                            Some(c) => {
                                lemma_related_through_keeps(filed(s.fusion, teammate, c), cr, c);
                            },
                            None => {},
                        }
                    },
                    None => {},
                }
            },
            Err(_) => {},
        }
    }
}

/// What is staged for a survey record leaves every person as they were.
pub proof fn lemma_staged_for_keeps(
    f: Fusion,
    cr: Seq<ClassificationRelations>,
    table: Seq<RuleModel>,
    rec: StudentFeedback,
)
    ensures
        match staged_for(f, cr, table, rec) {
            Ok(s) => s.fusion.people == f.people && s.fusion.aliases == f.aliases
                && s.fusion.warnings == f.warnings,
            Err(_) => true,
        },
{
    let start = Staged { fusion: f, vetos: Seq::empty(), wants: Seq::empty() };
    match rec.last_teammate_github_username {
        Some(given) => match resolved(f, given@) {
            Some(teammate) => {
                lemma_heard_all_keeps(
                    start,
                    cr,
                    table,
                    teammate,
                    split_on(text_or_empty(rec.last_teammate_feedback), ','),
                );
            },
            None => {},
        },
        None => {},
    }
}

/// A survey record adds no person, removes none and renames none.
pub proof fn lemma_fused_keeps_handles(
    f: Fusion,
    cr: Seq<ClassificationRelations>,
    table: Seq<RuleModel>,
    rec: StudentFeedback,
)
    ensures
        match fused(f, cr, table, rec) {
            Ok(g) => handles(g.people) == handles(f.people),
            Err(_) => true,
        },
{
    lemma_staged_for_keeps(f, cr, table, rec);
    lemma_first_index(handles(f.people), rec.school_username@);
    match fused(f, cr, table, rec) {
        Ok(g) => {
            assert(handles(g.people) =~= handles(f.people));
        },
        Err(_) => {},
    }
}

/// The survey records add no person, remove none and rename none.
pub proof fn lemma_fused_all_keeps_handles(
    f: Fusion,
    cr: Seq<ClassificationRelations>,
    table: Seq<RuleModel>,
    fb: Seq<StudentFeedback>,
)
    ensures
        match fused_all(f, cr, table, fb) {
            Ok(g) => handles(g.people) == handles(f.people),
            Err(_) => true,
        },
    decreases fb.len(),
{
    if fb.len() > 0 {
        lemma_fused_all_keeps_handles(f, cr, table, fb.drop_last());
        match fused_all(f, cr, table, fb.drop_last()) {
            Ok(g) => {
                lemma_fused_keeps_handles(g, cr, table, fb.last());
            },
            Err(_) => {},
        }
    }
}

/// Drawing rules in changes the two sets that the rules feed and nothing else.
pub proof fn lemma_drawn_keeps(f: Fusion, p: StudentModel, labels: Seq<Name>)
    ensures
        drawn(f, p, labels).school_username == p.school_username,
        drawn(f, p, labels).email == p.email,
        drawn(f, p, labels).github_username == p.github_username,
        drawn(f, p, labels).attractors == p.attractors,
        drawn(f, p, labels).wants == p.wants,
        drawn(f, p, labels).vetos == p.vetos,
        drawn(f, p, labels).ok_solo == p.ok_solo,
    decreases labels.len(),
{
    if labels.len() > 0 {
        lemma_drawn_keeps(f, p, labels.drop_last());
    }
}

/// Merging changes people and warnings only; it keeps every handle, and
/// people that are not merged yet are as they were.
pub proof fn lemma_merged_all_keeps(f: Fusion, n: nat)
    requires
        n <= f.people.len(),
    ensures
        merged_all(f, n).people.len() == f.people.len(),
        handles(merged_all(f, n).people) == handles(f.people),
        forall|j: int| n <= j < f.people.len() ==> merged_all(f, n).people[j] == f.people[j],
        forall|j: int| 0 <= j < n ==> merged_all(f, n).people[j] == merged(f, f.people[j]),
        merged_all(f, n).members == f.members,
        merged_all(f, n).labels == f.labels,
        merged_all(f, n).attracted == f.attracted,
        merged_all(f, n).repelled == f.repelled,
        merged_all(f, n).aliases == f.aliases,
    decreases n,
{
    if n > 0 {
        lemma_merged_all_keeps(f, (n - 1) as nat);
        let p = f.people[n - 1];
        lemma_drawn_keeps(
            f,
            StudentModel {
                repulsors: with_names(p.repulsors, p.vetos),
                attractors: with_names(p.attractors, p.wants),
                ..p
            },
            names_under(f.labels, p.school_username),
        );
        assert(handles(merged_all(f, n).people) =~= handles(f.people));
    }
}

/// Drawing rules in reads the two rule tables only.
pub proof fn lemma_drawn_same_tables(h: Fusion, f: Fusion, p: StudentModel, labels: Seq<Name>)
    requires
        h.attracted == f.attracted,
        h.repelled == f.repelled,
    ensures
        drawn(h, p, labels) == drawn(f, p, labels),
    decreases labels.len(),
{
    if labels.len() > 0 {
        lemma_drawn_same_tables(h, f, p, labels.drop_last());
    }
}

/// The warnings of unrelated categories read the two rule tables only.
pub proof fn lemma_unrelated_same_tables(h: Fusion, f: Fusion, student: Name, labels: Seq<Name>)
    requires
        h.attracted == f.attracted,
        h.repelled == f.repelled,
    ensures
        unrelated(h, student, labels) == unrelated(f, student, labels),
    decreases labels.len(),
{
    if labels.len() > 0 {
        lemma_unrelated_same_tables(h, f, student, labels.drop_last());
    }
}

/// The handles of the records `sc`, in order.
pub open spec fn record_handles(sc: Seq<StudentClassification>) -> Seq<Name> {
    Seq::new(sc.len(), |i: int| sc[i].school_username@)
}

/// Seeding adds one person for each record, in order, under the record's
/// handle, and succeeds only where no handle occurs twice.
pub proof fn lemma_seeded_all_handles(f: Fusion, sc: Seq<StudentClassification>)
    requires
        handles(f.people).no_duplicates(),
    ensures
        match seeded_all(f, sc) {
            Ok(g) => handles(g.people) == handles(f.people) + record_handles(sc) && handles(
                g.people,
            ).no_duplicates(),
            Err(_) => true,
        },
    decreases sc.len(),
{
    if sc.len() == 0 {
        assert(handles(f.people) + record_handles(sc) =~= handles(f.people));
    } else {
        lemma_seeded_all_handles(f, sc.drop_last());
        match seeded_all(f, sc.drop_last()) {
            Ok(g) => {
                let c = sc.last();
                let handle = c.school_username@;
                if !known(g.people, handle) {
                    let fresh = Fusion {
                        people: g.people.push(new_student(c.name@, handle, c.github_username@)),
                        labels: with_key(g.labels, handle),
                        ..g
                    };
                    lemma_filed_all_keeps(
                        fresh,
                        handle,
                        split_on(text_or_empty(c.classifications), ','),
                    );
                    let after = seeded(g, c);
                    assert(handles(after.people) =~= handles(g.people).push(handle));
                    assert(handles(after.people) =~= handles(f.people) + record_handles(sc));
                }
            },
            Err(_) => {},
        }
    }
}

/// A model has one person for each classification record, in the order of
/// the records and under the record's handle, and no two people share a handle.
pub proof fn lemma_matrix_people(
    fb: Seq<StudentFeedback>,
    sc: Seq<StudentClassification>,
    cr: Seq<ClassificationRelations>,
)
    ensures
        match matrix(fb, sc, cr) {
            Ok(m) => handles(m.people) == record_handles(sc) && handles(m.people).no_duplicates(),
            Err(_) => true,
        },
{
    assert(handles(blank().people) =~= Seq::<Name>::empty());
    lemma_seeded_all_handles(blank(), sc);
    match seeded_all(blank(), sc) {
        Ok(a) => {
            assert(handles(a.people) =~= record_handles(sc));
            lemma_related_all_keeps(a, cr);
            let b = related_all(a, cr);
            lemma_aliased_all_keeps(b, fb);
            let c0 = aliased_all(b, fb);
            lemma_fused_all_keeps_handles(c0, cr, vocabulary(), fb);
            match fused_all(c0, cr, vocabulary(), fb) {
                Ok(c) => {
                    lemma_merged_all_keeps(c, c.people.len());
                },
                Err(_) => {},
            }
        },
        Err(_) => {},
    }
}

} // verus!
