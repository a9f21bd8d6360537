//! Building the model of the population from the three record streams.
//!
//! A `Builder` holds the state of a build and hands it from one step to the
//! next; `student_matrix` runs the steps in order. What each step makes of
//! the state is said by the model of the build.

use crate::fusion::{
    aliased_all, answered, blank, capped, distinct, drawn, filed, filed_all, fused, fused_all,
    heard, heard_all, invalid_vetos, invalid_wants, lemma_drawn_keeps, lemma_drawn_same_tables,
    lemma_fused_all_fails, lemma_heard_all_fails, lemma_matrix_people, lemma_merged_all_keeps,
    lemma_seeded_all_fails, lemma_staged_for_keeps, lemma_unrelated_same_tables, matrix, merged,
    merged_all, named, refused, related, related_all, related_through, resolved, seeded,
    seeded_all, staged_for, unrelated, Fusion, Staged, MAX_EXPLICIT,
};
use crate::index::{lemma_with_key_then_names, lookup, names_under, AliasTable, NameIndex};
use crate::names::{with_names, Name};
use crate::phrases::{find_rule, rule_models, vocabulary_table, PhraseRule};
use crate::records::{
    text_of, text_or_empty, ClassificationRelations, StudentClassification, StudentFeedback,
};
use crate::report::{warning_models, BuildError, Failure, Warning, WarningModel};
use crate::student::{
    enrolled, find_student, handles, known, lemma_enrolled_all, models, new_student, Student,
    StudentModel, Students,
};
use crate::text::{
    canonical, canonical_handle, has_char, same_text, split_commas, split_on, trim_text, views,
};
use itertools::Itertools;
use vstd::prelude::*;

verus! {

/// `Itertools::unique`: the items in the order in which they occur, each
/// only where it occurs first; equal items are told by `Eq` and `Hash`,
/// which for strings is equality of their characters.
#[verifier::external_body]
fn unique_names(list: &Vec<String>) -> (r: Vec<String>)
    ensures
        views(r@) == distinct(views(list@)),
{
    list.iter().unique().cloned().collect()
}

/// A copy of `list`.
pub fn copy_names(list: &Vec<String>) -> (r: Vec<String>)
    ensures
        views(r@) == views(list@),
{
    let mut out: Vec<String> = Vec::new();
    let mut i: usize = 0;
    while i < list.len()
        invariant
            i <= list.len(),
            views(out@) == views(list@).take(i as int),
        decreases list.len() - i,
    {
        let ghost before = views(out@);
        let item = list[i].clone();
        out.push(item);
        proof {
            assert(views(out@) =~= before.push(views(list@)[i as int]));
            assert(views(out@) =~= views(list@).take(i + 1));
        }
        i = i + 1;
    }
    proof {
        assert(views(list@).take(i as int) =~= views(list@));
    }
    out
}

/// `list` turned round: the last name first.
pub fn turn_names(list: &Vec<String>) -> (r: Vec<String>)
    ensures
        views(r@) == views(list@).reverse(),
{
    let ghost turned = views(list@).reverse();
    let mut out: Vec<String> = Vec::new();
    let mut k: usize = list.len();
    proof {
        assert(views(out@) =~= turned.take(0));
    }
    while k > 0
        invariant
            k <= list.len(),
            out.len() + k == list.len(),
            turned == views(list@).reverse(),
            views(out@) == turned.take(out.len() as int),
        decreases k,
    {
        let ghost before = views(out@);
        k = k - 1;
        let item = list[k].clone();
        out.push(item);
        proof {
            assert(turned[out.len() - 1] == views(list@)[k as int]);
            assert(views(out@) =~= before.push(turned[out.len() - 1]));
            assert(views(out@) =~= turned.take(out.len() as int));
        }
    }
    proof {
        assert(turned.take(out.len() as int) =~= turned);
    }
    out
}

/// The explicit list that is kept of `list`: going from the last entry back
/// to the first, each name is taken where it is met first, until three are
/// taken.
pub fn cap_explicit(list: &Vec<String>) -> (r: Vec<String>)
    ensures
        views(r@) == capped(views(list@)),
{
    let turned = turn_names(list);
    let unique = unique_names(&turned);
    let ghost all = views(unique@);
    let mut out: Vec<String> = Vec::new();
    let mut i: usize = 0;
    proof {
        assert(views(out@) =~= all.take(0));
    }
    while i < unique.len() && i < MAX_EXPLICIT
        invariant
            i <= unique.len(),
            i <= MAX_EXPLICIT,
            out.len() == i,
            all == views(unique@),
            views(out@) == all.take(i as int),
        decreases unique.len() - i,
    {
        let ghost before = views(out@);
        let item = unique[i].clone();
        out.push(item);
        proof {
            assert(views(out@) =~= before.push(all[i as int]));
            assert(views(out@) =~= all.take(i + 1));
        }
        i = i + 1;
    }
    proof {
        if all.len() <= MAX_EXPLICIT {
            assert(all.take(i as int) =~= all);
        }
    }
    out
}

/// Sorts the canonical form of an explicit field, where the field is
/// present, to `accepted` if it names one of `people` and to `rejected` if
/// it names nobody.
fn check_field(
    people: &Vec<Student>,
    field: &Option<String>,
    accepted: &mut Vec<String>,
    rejected: &mut Vec<String>,
)
    ensures
        views(final(accepted)@) == views(old(accepted)@) + named(handles(models(people@)), *field),
        views(final(rejected)@) == views(old(rejected)@) + refused(handles(models(people@)), *field),
{
    let ghost a0 = views(accepted@);
    let ghost r0 = views(rejected@);
    match field {
        Some(text) => {
            let name = canonical_handle(text.as_str());
            if find_student(people, name.as_str()).is_some() {
                accepted.push(name);
                proof {
                    assert(views(accepted@) =~= a0 + seq![canonical(text@)]);
                    assert(views(rejected@) =~= r0 + Seq::<Name>::empty());
                }
            } else {
                rejected.push(name);
                proof {
                    assert(views(rejected@) =~= r0 + seq![canonical(text@)]);
                    assert(views(accepted@) =~= a0 + Seq::<Name>::empty());
                }
            }
        },
        None => {
            proof {
                assert(views(accepted@) =~= a0 + Seq::<Name>::empty());
                assert(views(rejected@) =~= r0 + Seq::<Name>::empty());
            }
        },
    }
}

/// Adds the names of `more` at the end of `list`.
fn append_names(list: &mut Vec<String>, more: &Vec<String>)
    ensures
        views(final(list)@) == views(old(list)@) + views(more@),
{
    let mut i: usize = 0;
    while i < more.len()
        invariant
            i <= more.len(),
            views(list@) == views(old(list)@) + views(more@).take(i as int),
        decreases more.len() - i,
    {
        let ghost before = views(list@);
        let item = more[i].clone();
        list.push(item);
        proof {
            assert(views(list@) =~= before.push(views(more@)[i as int]));
            assert(views(list@) =~= views(old(list)@) + views(more@).take(i + 1));
        }
        i = i + 1;
    }
    proof {
        assert(views(more@).take(i as int) =~= views(more@));
    }
}

/// The pieces of an optional comma-separated field; an absent field reads
/// as the empty text.
fn split_field(field: &Option<String>) -> (r: Vec<String>)
    ensures
        views(r@) == split_on(text_or_empty(*field), ','),
{
    match field {
        Some(list) => split_commas(list.as_str()),
        None => {
            proof {
                reveal_strlit("");
                assert(""@ =~= Seq::<char>::empty());
            }
            split_commas("")
        },
    }
}

/// The state of a build.
pub struct Builder {
    people: Vec<Student>,
    members: NameIndex,
    labels: NameIndex,
    attracted: NameIndex,
    repelled: NameIndex,
    aliases: AliasTable,
    warnings: Vec<Warning>,
}

impl View for Builder {
    type V = Fusion;

    closed spec fn view(&self) -> Fusion {
        Fusion {
            people: models(self.people@),
            members: self.members@,
            labels: self.labels@,
            attracted: self.attracted@,
            repelled: self.repelled@,
            aliases: self.aliases@,
            warnings: warning_models(self.warnings@),
        }
    }
}

impl Builder {
    /// The state before any record was read.
    pub fn new() -> (r: Self)
        ensures
            r@ == blank(),
    {
        let r = Builder {
            people: Vec::new(),
            members: NameIndex::new(),
            labels: NameIndex::new(),
            attracted: NameIndex::new(),
            repelled: NameIndex::new(),
            aliases: AliasTable::new(),
            warnings: Vec::new(),
        };
        proof {
            assert(models(r.people@) =~= Seq::<StudentModel>::empty());
            assert(warning_models(r.warnings@) =~= Seq::<WarningModel>::empty());
        }
        r
    }

    /// Files `handle` under `label`. The empty text is no category.
    pub fn file(&mut self, handle: &str, label: &str)
        ensures
            final(self)@ == filed(old(self)@, handle@, label@),
    {
        if label.is_empty() {
            return ;
        }
        self.members.add(label, handle);
        self.labels.add(handle, label);
    }

    /// Files `handle` under each of `labels`, in order.
    pub fn file_all(&mut self, handle: &str, labels: &Vec<String>)
        ensures
            final(self)@ == filed_all(old(self)@, handle@, views(labels@)),
    {
        let mut i: usize = 0;
        while i < labels.len()
            invariant
                i <= labels.len(),
                self@ == filed_all(old(self)@, handle@, views(labels@).take(i as int)),
            decreases labels.len() - i,
        {
            proof {
                assert(views(labels@).take(i + 1).drop_last() =~= views(labels@).take(i as int));
            }
            self.file(handle, labels[i].as_str());
            i = i + 1;
        }
        proof {
            assert(views(labels@).take(i as int) =~= views(labels@));
        }
    }

    /// Adds the person of record `c`, filed under the categories that the
    /// record lists, unless the handle is taken already.
    pub fn seed(&mut self, c: &StudentClassification) -> (r: Result<(), BuildError>)
        ensures
            match r {
                Ok(_) => !known(old(self)@.people, c.school_username@) && final(self)@ == seeded(
                    old(self)@,
                    *c,
                ),
                Err(e) => known(old(self)@.people, c.school_username@) && e@
                    == (Failure::DuplicateHandle { handle: c.school_username@ }) && final(self)@
                    == old(self)@,
            },
    {
        let handle = c.school_username.as_str();
        if find_student(&self.people, handle).is_some() {
            return Err(BuildError::DuplicateHandle { handle: c.school_username.clone() });
        }
        let ghost before = self@;
        self.people.push(
            Student::new(c.name.clone(), c.school_username.clone(), c.github_username.clone()),
        );
        self.labels.ensure(handle);
        proof {
            assert(models(self.people@) =~= before.people.push(
                new_student(c.name@, c.school_username@, c.github_username@),
            ));
        }
        let labels = split_field(&c.classifications);
        self.file_all(handle, &labels);
        Ok(())
    }

    /// Adds the people of all records `sc`, in order, up to the first record
    /// whose handle is taken already.
    pub fn seed_all(&mut self, sc: &Vec<StudentClassification>) -> (r: Result<(), BuildError>)
        ensures
            match r {
                Ok(_) => seeded_all(old(self)@, sc@) == Ok::<Fusion, Failure>(final(self)@),
                Err(e) => seeded_all(old(self)@, sc@) == Err::<Fusion, Failure>(e@),
            },
    {
        let mut i: usize = 0;
        while i < sc.len()
            invariant
                i <= sc.len(),
                seeded_all(old(self)@, sc@.take(i as int)) == Ok::<Fusion, Failure>(self@),
            decreases sc.len() - i,
        {
            proof {
                assert(sc@.take(i + 1).drop_last() =~= sc@.take(i as int));
            }
            match self.seed(&sc[i]) {
                Ok(_) => {},
                Err(e) => {
                    proof {
                        lemma_seeded_all_fails(old(self)@, sc@, i + 1);
                    }
                    return Err(e);
                },
            }
            i = i + 1;
        }
        proof {
            assert(sc@.take(i as int) =~= sc@);
        }
        Ok(())
    }

    /// Applies rule `r` to the categories as they are now.
    pub fn relate(&mut self, r: &ClassificationRelations)
        ensures
            final(self)@ == related(old(self)@, *r),
    {
        let subject = r.class.as_str();
        let ghost objects = names_under(self@.members, r.class_other@);
        proof {
            lemma_with_key_then_names(self@.attracted, subject@, objects);
            lemma_with_key_then_names(self@.repelled, subject@, objects);
        }
        self.attracted.ensure(subject);
        self.repelled.ensure(subject);
        match self.members.get(r.class_other.as_str()) {
            Some(members) => {
                if has_char(r.relation.as_str(), '+') {
                    self.attracted.add_all(subject, members);
                }
                if has_char(r.relation.as_str(), '-') {
                    self.repelled.add_all(subject, members);
                }
            },
            None => {},
        }
    }

    /// Applies all rules `cr`, in order.
    pub fn relate_all(&mut self, cr: &Vec<ClassificationRelations>)
        ensures
            final(self)@ == related_all(old(self)@, cr@),
    {
        let mut i: usize = 0;
        while i < cr.len()
            invariant
                i <= cr.len(),
                self@ == related_all(old(self)@, cr@.take(i as int)),
            decreases cr.len() - i,
        {
            proof {
                assert(cr@.take(i + 1).drop_last() =~= cr@.take(i as int));
            }
            self.relate(&cr[i]);
            i = i + 1;
        }
        proof {
            assert(cr@.take(i as int) =~= cr@);
        }
    }

    /// Applies those rules of `cr` whose object category is `label`, in order.
    pub fn relate_through(&mut self, cr: &Vec<ClassificationRelations>, label: &str)
        ensures
            final(self)@ == related_through(old(self)@, cr@, label@),
    {
        let key: String = label.to_owned();
        let mut i: usize = 0;
        while i < cr.len()
            invariant
                i <= cr.len(),
                key@ == label@,
                self@ == related_through(old(self)@, cr@.take(i as int), label@),
            decreases cr.len() - i,
        {
            proof {
                assert(cr@.take(i + 1).drop_last() =~= cr@.take(i as int));
            }
            if cr[i].class_other == key {
                self.relate(&cr[i]);
            }
            i = i + 1;
        }
        proof {
            assert(cr@.take(i as int) =~= cr@);
        }
    }

    /// Collects the alias that each survey record declares.
    pub fn alias_all(&mut self, fb: &Vec<StudentFeedback>)
        ensures
            final(self)@ == aliased_all(old(self)@, fb@),
    {
        let mut i: usize = 0;
        while i < fb.len()
            invariant
                i <= fb.len(),
                self@ == aliased_all(old(self)@, fb@.take(i as int)),
            decreases fb.len() - i,
        {
            proof {
                assert(fb@.take(i + 1).drop_last() =~= fb@.take(i as int));
            }
            self.aliases.set(fb[i].github_username.as_str(), fb[i].school_username.as_str());
            i = i + 1;
        }
        proof {
            assert(fb@.take(i as int) =~= fb@);
        }
    }

    /// The canonical handle that `given` stands for: what the alias table
    /// says, or else `given` itself where it is the handle of a person.
    pub fn resolve(&self, given: &str) -> (r: Option<String>)
        ensures
            text_of(r) == resolved(self@, given@),
    {
        match self.aliases.get(given) {
            Some(h) => Some(h.clone()),
            None => if find_student(&self.people, given).is_some() {
                Some(given.to_owned())
            } else {
                None
            },
        }
    }

    /// Hears one phrase with rule `rule` said of `teammate`.
    fn hear(
        &mut self,
        cr: &Vec<ClassificationRelations>,
        teammate: &str,
        rule: &PhraseRule,
        vetos: &mut Vec<String>,
        wants: &mut Vec<String>,
    )
        ensures
            (Staged {
                fusion: final(self)@,
                vetos: views(final(vetos)@),
                wants: views(final(wants)@),
            }) == heard(
                Staged { fusion: old(self)@, vetos: views(old(vetos)@), wants: views(old(wants)@) },
                cr@,
                teammate@,
                rule@,
            ),
    {
        let ghost v0 = views(vetos@);
        let ghost w0 = views(wants@);
        if rule.veto {
            vetos.push(teammate.to_owned());
            proof {
                assert(views(vetos@) =~= v0.push(teammate@));
            }
        }
        if rule.want {
            wants.push(teammate.to_owned());
            proof {
                assert(views(wants@) =~= w0.push(teammate@));
            }
        }
        match &rule.category {
            Some(c) => {
                self.file(teammate, c.as_str());
                self.relate_through(cr, c.as_str());
            },
            None => {},
        }
    }

    /// Hears all `phrases` said of `teammate`, each trimmed and looked up in
    /// `table`, up to the first phrase that the table does not hold.
    pub fn hear_all(
        &mut self,
        cr: &Vec<ClassificationRelations>,
        table: &Vec<PhraseRule>,
        teammate: &str,
        phrases: &Vec<String>,
        vetos: &mut Vec<String>,
        wants: &mut Vec<String>,
    ) -> (r: Result<(), BuildError>)
        ensures
            match heard_all(
                Staged { fusion: old(self)@, vetos: views(old(vetos)@), wants: views(old(wants)@) },
                cr@,
                rule_models(table@),
                teammate@,
                views(phrases@),
            ) {
                Ok(st) => r.is_ok() && st == (Staged {
                    fusion: final(self)@,
                    vetos: views(final(vetos)@),
                    wants: views(final(wants)@),
                }),
                Err(e) => r matches Err(x) && x@ == e,
            },
    {
        let ghost start = Staged {
            fusion: self@,
            vetos: views(vetos@),
            wants: views(wants@),
        };
        let mut i: usize = 0;
        while i < phrases.len()
            invariant
                i <= phrases.len(),
                start == (Staged {
                    fusion: old(self)@,
                    vetos: views(old(vetos)@),
                    wants: views(old(wants)@),
                }),
                heard_all(
                    start,
                    cr@,
                    rule_models(table@),
                    teammate@,
                    views(phrases@).take(i as int),
                ) == Ok::<Staged, Failure>(
                    Staged { fusion: self@, vetos: views(vetos@), wants: views(wants@) },
                ),
            decreases phrases.len() - i,
        {
            proof {
                assert(views(phrases@).take(i + 1).drop_last() =~= views(phrases@).take(i as int));
            }
            let phrase = trim_text(phrases[i].as_str());
            match find_rule(table, phrase.as_str()) {
                Some(k) => {
                    self.hear(cr, teammate, &table[k], vetos, wants);
                },
                None => {
                    proof {
                        assert(views(phrases@).take(i + 1).last() == phrases@[i as int]@);
                        assert(heard_all(
                            start,
                            cr@,
                            rule_models(table@),
                            teammate@,
                            views(phrases@).take(i + 1),
                        ) == Err::<Staged, Failure>(Failure::UnknownPhrase { phrase: phrase@ }));
                        lemma_heard_all_fails(
                            start,
                            cr@,
                            rule_models(table@),
                            teammate@,
                            views(phrases@),
                            i + 1,
                        );
                    }
                    return Err(BuildError::UnknownPhrase { phrase });
                },
            }
            i = i + 1;
        }
        proof {
            assert(views(phrases@).take(i as int) =~= views(phrases@));
        }
        Ok(())
    }

    /// Hears what survey record `rec` says of the former teammate, where it
    /// names one that can be resolved.
    fn stage(
        &mut self,
        cr: &Vec<ClassificationRelations>,
        table: &Vec<PhraseRule>,
        rec: &StudentFeedback,
        vetos: &mut Vec<String>,
        wants: &mut Vec<String>,
    ) -> (r: Result<(), BuildError>)
        requires
            old(vetos)@.len() == 0,
            old(wants)@.len() == 0,
        ensures
            match staged_for(old(self)@, cr@, rule_models(table@), *rec) {
                Ok(st) => r.is_ok() && st == (Staged {
                    fusion: final(self)@,
                    vetos: views(final(vetos)@),
                    wants: views(final(wants)@),
                }),
                Err(e) => r matches Err(x) && x@ == e,
            },
    {
        proof {
            assert(views(vetos@) =~= Seq::<Name>::empty());
            assert(views(wants@) =~= Seq::<Name>::empty());
        }
        match &rec.last_teammate_github_username {
            Some(given) => {
                match self.resolve(given.as_str()) {
                    Some(teammate) => {
                        let phrases = split_field(&rec.last_teammate_feedback);
                        self.hear_all(cr, table, teammate.as_str(), &phrases, vetos, wants)
                    },
                    None => Ok(()),
                }
            },
            None => Ok(()),
        }
    }

    /// Adds one warning for each of `dropped`, refused by `student` if
    /// `veto` holds and wanted otherwise.
    fn warn_invalid(&mut self, student: &str, dropped: &Vec<String>, veto: bool)
        ensures
            final(self)@ == (Fusion {
                warnings: old(self)@.warnings + if veto {
                    invalid_vetos(student@, views(dropped@))
                } else {
                    invalid_wants(student@, views(dropped@))
                },
                ..old(self)@
            }),
    {
        let ghost w0 = self@.warnings;
        let ghost all = if veto {
            invalid_vetos(student@, views(dropped@))
        } else {
            invalid_wants(student@, views(dropped@))
        };
        let mut i: usize = 0;
        while i < dropped.len()
            invariant
                i <= dropped.len(),
                all == if veto {
                    invalid_vetos(student@, views(dropped@))
                } else {
                    invalid_wants(student@, views(dropped@))
                },
                self@ == (Fusion { warnings: w0 + all.take(i as int), ..old(self)@ }),
            decreases dropped.len() - i,
        {
            let ghost before = warning_models(self.warnings@);
            let w = if veto {
                Warning::InvalidVeto { student: student.to_owned(), handle: dropped[i].clone() }
            } else {
                Warning::InvalidWant { student: student.to_owned(), handle: dropped[i].clone() }
            };
            self.warnings.push(w);
            proof {
                assert(warning_models(self.warnings@) =~= before.push(all[i as int]));
                assert(w0 + all.take(i + 1) =~= (w0 + all.take(i as int)).push(all[i as int]));
            }
            i = i + 1;
        }
        proof {
            assert(all.take(i as int) =~= all);
        }
    }

    /// Fuses survey record `rec` into its person. A record of a person who
    /// is not in the population leaves a warning and nothing else.
    pub fn fuse(
        &mut self,
        cr: &Vec<ClassificationRelations>,
        table: &Vec<PhraseRule>,
        rec: &StudentFeedback,
    ) -> (r: Result<(), BuildError>)
        ensures
            match fused(old(self)@, cr@, rule_models(table@), *rec) {
                Ok(g) => r.is_ok() && final(self)@ == g,
                Err(e) => r matches Err(x) && x@ == e,
            },
    {
        let handle = rec.school_username.as_str();
        let ghost f = self@;
        let i = match find_student(&self.people, handle) {
            Some(i) => i,
            None => {
                let ghost before = warning_models(self.warnings@);
                self.warnings.push(Warning::UnknownStudent { handle: rec.school_username.clone() });
                proof {
                    assert(warning_models(self.warnings@) =~= before.push(
                        WarningModel::UnknownStudent { handle: handle@ },
                    ));
                }
                return Ok(());
            },
        };
        let mut staged_vetos: Vec<String> = Vec::new();
        let mut staged_wants: Vec<String> = Vec::new();
        proof {
            lemma_staged_for_keeps(f, cr@, rule_models(table@), *rec);
        }
        match self.stage(cr, table, rec, &mut staged_vetos, &mut staged_wants) {
            Ok(_) => {},
            Err(e) => {
                return Err(e);
            },
        }
        let ghost st = Staged {
            fusion: self@,
            vetos: views(staged_vetos@),
            wants: views(staged_wants@),
        };
        let ghost g = self@;
        let ghost p = g.people[i as int];
        let ghost hs = handles(g.people);

        let mut vetos = copy_names(&self.people[i].vetos);
        let mut bad_vetos: Vec<String> = Vec::new();
        check_field(&self.people, &rec.veto0, &mut vetos, &mut bad_vetos);
        check_field(&self.people, &rec.veto1, &mut vetos, &mut bad_vetos);
        check_field(&self.people, &rec.veto2, &mut vetos, &mut bad_vetos);
        let mut kept_vetos = cap_explicit(&vetos);
        append_names(&mut kept_vetos, &staged_vetos);

        let mut wants = copy_names(&self.people[i].wants);
        let mut bad_wants: Vec<String> = Vec::new();
        check_field(&self.people, &rec.want0, &mut wants, &mut bad_wants);
        check_field(&self.people, &rec.want1, &mut wants, &mut bad_wants);
        check_field(&self.people, &rec.want2, &mut wants, &mut bad_wants);
        let mut kept_wants = cap_explicit(&wants);
        append_names(&mut kept_wants, &staged_wants);

        proof {
            assert(views(bad_vetos@) =~= refused(hs, rec.veto0) + refused(hs, rec.veto1) + refused(
                hs,
                rec.veto2,
            ));
            assert(views(bad_wants@) =~= refused(hs, rec.want0) + refused(hs, rec.want1) + refused(
                hs,
                rec.want2,
            ));
        }

        if same_text(rec.solo.as_str(), "Yes") {
            self.people[i].ok_solo = true;
        } else if same_text(rec.solo.as_str(), "No") {
            self.people[i].ok_solo = false;
        }
        self.people[i].vetos = kept_vetos;
        self.people[i].wants = kept_wants;
        proof {
            assert(models(self.people@) =~= g.people.update(i as int, answered(p, hs, st, *rec)));
        }
        self.warn_invalid(handle, &bad_vetos, true);
        self.warn_invalid(handle, &bad_wants, false);
        Ok(())
    }

    /// Fuses all survey records `fb`, in order, up to the first that fails.
    pub fn fuse_all(
        &mut self,
        cr: &Vec<ClassificationRelations>,
        table: &Vec<PhraseRule>,
        fb: &Vec<StudentFeedback>,
    ) -> (r: Result<(), BuildError>)
        ensures
            match fused_all(old(self)@, cr@, rule_models(table@), fb@) {
                Ok(g) => r.is_ok() && final(self)@ == g,
                Err(e) => r matches Err(x) && x@ == e,
            },
    {
        let mut i: usize = 0;
        while i < fb.len()
            invariant
                i <= fb.len(),
                fused_all(old(self)@, cr@, rule_models(table@), fb@.take(i as int)) == Ok::<
                    Fusion,
                    Failure,
                >(self@),
            decreases fb.len() - i,
        {
            proof {
                assert(fb@.take(i + 1).drop_last() =~= fb@.take(i as int));
            }
            match self.fuse(cr, table, &fb[i]) {
                Ok(_) => {},
                Err(e) => {
                    proof {
                        lemma_fused_all_fails(old(self)@, cr@, rule_models(table@), fb@, i + 1);
                    }
                    return Err(e);
                },
            }
            i = i + 1;
        }
        proof {
            assert(fb@.take(i as int) =~= fb@);
        }
        Ok(())
    }

    /// Draws the rules of each of `labels` into person `i`, and warns of
    /// each label that no rule has as its subject.
    fn draw(&mut self, i: usize, labels: &Vec<String>)
        requires
            i < old(self)@.people.len(),
        ensures
            final(self)@ == (Fusion {
                people: old(self)@.people.update(
                    i as int,
                    drawn(old(self)@, old(self)@.people[i as int], views(labels@)),
                ),
                warnings: old(self)@.warnings + unrelated(
                    old(self)@,
                    old(self)@.people[i as int].school_username,
                    views(labels@),
                ),
                ..old(self)@
            }),
    {
        let ghost f = self@;
        let ghost p = f.people[i as int];
        let mut j: usize = 0;
        proof {
            assert(f.people.update(i as int, p) =~= f.people);
            assert(f.warnings + Seq::<WarningModel>::empty() =~= f.warnings);
        }
        while j < labels.len()
            invariant
                j <= labels.len(),
                i < f.people.len(),
                p == f.people[i as int],
                self@ == (Fusion {
                    people: f.people.update(i as int, drawn(f, p, views(labels@).take(j as int))),
                    warnings: f.warnings + unrelated(
                        f,
                        p.school_username,
                        views(labels@).take(j as int),
                    ),
                    ..f
                }),
            decreases labels.len() - j,
        {
            let ghost sofar = views(labels@).take(j as int);
            proof {
                assert(views(labels@).take(j + 1).drop_last() =~= sofar);
                lemma_drawn_keeps(f, p, sofar);
            }
            let label = labels[j].as_str();
            let mut found = false;
            let ghost q = drawn(f, p, sofar);
            let ghost people0 = self.people@;
            let ghost warnings0 = warning_models(self.warnings@);
            assert(models(people0) == f.people.update(i as int, q));
            assert(self.people@.len() == f.people.len() && people0[i as int]@ == q) by {
                assert(models(self.people@).len() == f.people.len());
                assert(models(self.people@)[i as int] == q);
            }
            assert(self.attracted@ == f.attracted && self.repelled@ == f.repelled);
            match self.attracted.get(label) {
                Some(who) => {
                    self.people[i].classification_attractors.extend(who);
                    found = true;
                },
                None => {},
            }
            let ghost people1 = self.people@;
            assert(people1.len() == people0.len());
            assert(forall|k: int| 0 <= k < people1.len() && k != i ==> people1[k] == people0[k]);
            assert(people1[i as int]@ == (StudentModel {
                classification_attractors: with_names(
                    q.classification_attractors,
                    names_under(f.attracted, label@),
                ),
                ..q
            }));
            match self.repelled.get(label) {
                Some(who) => {
                    self.people[i].repulsors.extend(who);
                    found = true;
                },
                None => {},
            }
            let ghost people2 = self.people@;
            assert(people2.len() == people0.len());
            assert(forall|k: int| 0 <= k < people2.len() && k != i ==> people2[k] == people0[k]);
            assert(people2[i as int]@ == drawn(f, p, views(labels@).take(j + 1)));
            assert(found == !(lookup(f.attracted, label@).is_none() && lookup(
                f.repelled,
                label@,
            ).is_none()));
            if !found {
                let ghost before = warning_models(self.warnings@);
                let w = Warning::UnrelatedCategory {
                    category: labels[j].clone(),
                    student: self.people[i].school_username.clone(),
                };
                self.warnings.push(w);
                proof {
                    assert(warning_models(self.warnings@) =~= before.push(w@));
                }
            }
            proof {
                let next = views(labels@).take(j + 1);
                assert(next.last() == label@);
                assert(self.people@ == people2);
                assert forall|k: int| 0 <= k < people2.len() implies models(people2)[k]
                    == f.people.update(i as int, drawn(f, p, next))[k] by {
                    if k != i {
                        assert(people2[k] == people0[k]);
                        assert(models(people0)[k] == f.people[k]);
                    }
                }
                assert(models(self.people@) =~= f.people.update(i as int, drawn(f, p, next)));
                assert(q.school_username == p.school_username);
                assert(warning_models(self.warnings@) =~= f.warnings + unrelated(
                    f,
                    p.school_username,
                    next,
                ));
            }
            j = j + 1;
        }
        proof {
            assert(views(labels@).take(j as int) =~= views(labels@));
        }
    }

    /// Merges every person: the explicit lists are folded into the sets,
    /// and the rules of the person's categories are drawn in.
    pub fn merge_all(&mut self)
        ensures
            final(self)@ == merged_all(old(self)@, old(self)@.people.len()),
    {
        let ghost f = self@;
        let n = self.people.len();
        let mut i: usize = 0;
        while i < n
            invariant
                i <= n,
                n == f.people.len(),
                self@ == merged_all(f, i as nat),
            decreases n - i,
        {
            proof {
                lemma_merged_all_keeps(f, i as nat);
            }
            let ghost g = self@;
            let ghost p = f.people[i as int];
            let person = &mut self.people[i];
            person.repulsors.extend_from(&person.vetos);
            person.attractors.extend_from(&person.wants);
            let ghost base = StudentModel {
                repulsors: with_names(p.repulsors, p.vetos),
                attractors: with_names(p.attractors, p.wants),
                ..p
            };
            proof {
                assert(models(self.people@) =~= g.people.update(i as int, base));
            }
            let labels = match self.labels.get(self.people[i].school_username.as_str()) {
                Some(set) => set.to_vec(),
                None => Vec::new(),
            };
            proof {
                assert(views(labels@) =~= names_under(f.labels, p.school_username));
            }
            let ghost h = self@;
            self.draw(i, &labels);
            proof {
                let ls = views(labels@);
                lemma_drawn_same_tables(h, f, base, ls);
                lemma_unrelated_same_tables(h, f, p.school_username, ls);
                assert(self@.people =~= g.people.update(i as int, merged(f, p)));
            }
            i = i + 1;
        }
    }

    /// The population and the warnings of a build. Of people who share a
    /// handle, which a build that seeds through `seed` never holds, only the
    /// first is handed out.
    pub fn finish(self) -> (r: (Students, Vec<Warning>))
        ensures
            r.0@ == enrolled(self@.people),
            warning_models(r.1@) == self@.warnings,
    {
        (Students::from_people(self.people), self.warnings)
    }
}

/// Builds the model of the population from survey records `fb`,
/// classification records `sc` and rules `cr`, each taken in the order given.
///
/// The result is the population with the warnings that were given on the
/// way, or the first error: a handle that two classification records share,
/// or a feedback phrase outside the vocabulary.
pub fn student_matrix(
    fb: Vec<StudentFeedback>,
    sc: Vec<StudentClassification>,
    cr: Vec<ClassificationRelations>,
) -> (r: Result<(Students, Vec<Warning>), BuildError>)
    ensures
        match matrix(fb@, sc@, cr@) {
            Ok(m) => r matches Ok(out) && out.0@ == m.people && warning_models(out.1@)
                == m.warnings,
            Err(e) => r matches Err(x) && x@ == e,
        },
{
    let mut b = Builder::new();
    match b.seed_all(&sc) {
        Ok(_) => {},
        Err(e) => {
            return Err(e);
        },
    }
    b.relate_all(&cr);
    b.alias_all(&fb);
    let table = vocabulary_table();
    match b.fuse_all(&cr, &table, &fb) {
        Ok(_) => {},
        Err(e) => {
            return Err(e);
        },
    }
    b.merge_all();
    proof {
        lemma_matrix_people(fb@, sc@, cr@);
        lemma_enrolled_all(b@.people);
    }
    Ok(b.finish())
}

} // verus!
