//! Where the names in a model come from.
//!
//! Every name that a build files under a category, stages, or puts into a
//! person's lists and sets is the handle of a person of the population, or
//! what the alias table makes of a former teammate that a survey record
//! names. A handle from an explicit field that names nobody is answered with
//! a warning and goes nowhere else.

use crate::index::{keys_of, lookup, names_under, with_key, with_name_under, with_names_under};
use crate::fusion::{
    aliased_all, answered, blank, capped, distinct, drawn, filed, filed_all, fused, fused_all,
    heard, heard_all, invalid_vetos, invalid_wants, lemma_aliased_all_keeps, lemma_filed_all_keeps,
    lemma_fused_all_keeps_handles, lemma_merged_all_keeps, lemma_related_all_keeps,
    lemma_seeded_all_handles, lemma_staged_for_keeps, matrix, merged, merged_all, named,
    record_handles, refused, related, related_all, related_through, resolved, seeded_all,
    staged_for, Fusion, Staged, MAX_EXPLICIT,
};
use crate::names::{first_index, lemma_first_index, lemma_with_names, with_name, with_names, Name};
use crate::phrases::{rule_for, vocabulary, RuleModel};
use crate::records::{
    text_of, text_or_empty, ClassificationRelations, StudentClassification, StudentFeedback,
};
use crate::report::WarningModel;
use crate::student::{handles, known, new_student, StudentModel};
use crate::text::{canonical, split_on, trimmed};
use vstd::prelude::*;

verus! {

/// The explicit list that is kept has at most three names, none of them
/// twice, and each of them from the list that was given.
pub proof fn lemma_capped(l: Seq<Name>)
    ensures
        capped(l).len() <= MAX_EXPLICIT,
        capped(l).no_duplicates(),
        forall|x: Name| capped(l).contains(x) ==> l.contains(x),
{
    let turned = l.reverse();
    let d = distinct(turned);
    let c = capped(l);
    lemma_with_names(Seq::<Name>::empty(), turned);
    assert(Seq::<Name>::empty().no_duplicates());
    assert forall|i: int, j: int| 0 <= i < c.len() && 0 <= j < c.len() && i != j implies c[i]
        != c[j] by {
        assert(c[i] == d[i]);
        assert(c[j] == d[j]);
    }
    assert forall|x: Name| c.contains(x) implies l.contains(x) by {
        let i = choose|i: int| 0 <= i < c.len() && c[i] == x;
        assert(c[i] == d[i]);
        assert(d.contains(x));
        assert(turned.contains(x));
        let j = choose|j: int| 0 <= j < turned.len() && turned[j] == x;
        assert(l[l.len() - 1 - j] == x);
    }
}

/// The last entry of a list is the first that is kept of it: later entries
/// take priority over earlier ones, and of equal entries the last counts.
pub proof fn lemma_capped_latest_first(l: Seq<Name>)
    requires
        l.len() > 0,
    ensures
        capped(l).len() > 0,
        capped(l)[0] == l.last(),
{
    let turned = l.reverse();
    let e = Seq::<Name>::empty();
    assert(turned[0] == l.last());
    lemma_distinct_begins(turned, 1);
    assert(turned.take(1) =~= seq![turned[0]]);
    assert(seq![turned[0]].drop_last() =~= e);
    assert(with_names(e, seq![turned[0]]) =~= seq![turned[0]]) by {
        reveal_with_fuel(with_names, 2);
    }
}

/// What is kept of the first `n` names stands at the beginning of what is
/// kept of all of them.
pub proof fn lemma_distinct_begins(l: Seq<Name>, n: int)
    requires
        0 <= n <= l.len(),
    ensures
        distinct(l.take(n)).len() <= distinct(l).len(),
        distinct(l).take(distinct(l.take(n)).len() as int) == distinct(l.take(n)),
    decreases l.len(),
{
    if n < l.len() {
        let init = l.drop_last();
        assert(init.take(n) =~= l.take(n));
        lemma_distinct_begins(init, n);
        crate::names::lemma_with_name(distinct(init), l.last());
        let k = distinct(l.take(n)).len() as int;
        assert(distinct(l).take(k) =~= distinct(init).take(k));
    } else {
        assert(l.take(n) =~= l);
        assert(distinct(l).take(distinct(l).len() as int) =~= distinct(l));
    }
}

/// Of three names that differ from one another all are kept, the last first.
pub proof fn lemma_capped_three(x: Name, y: Name, z: Name)
    requires
        x != y,
        y != z,
        x != z,
    ensures
        capped(seq![x, y, z]) == seq![z, y, x],
{
    let l = seq![z, y, x];
    let e = Seq::<Name>::empty();
    assert(seq![x, y, z].reverse() =~= l);
    assert(l.drop_last() =~= seq![z, y]);
    assert(seq![z, y].drop_last() =~= seq![z]);
    assert(seq![z].drop_last() =~= e);
    assert(with_names(e, e) == e);
    assert(with_names(e, seq![z]) =~= seq![z]);
    assert(!seq![z].contains(y));
    assert(with_names(e, seq![z, y]) =~= seq![z, y]);
    assert(!seq![z, y].contains(x));
    assert(distinct(l) =~= l);
}

/// The alias table of the survey records `fb`.
pub open spec fn alias_table(fb: Seq<StudentFeedback>) -> Seq<(Name, Name)> {
    aliased_all(blank(), fb).aliases
}

/// Whether survey record `k` is of a person with a handle of `hs` and names
/// a former teammate that the alias table takes to `h`.
pub open spec fn teammate_at(fb: Seq<StudentFeedback>, hs: Seq<Name>, k: int, h: Name) -> bool {
    hs.contains(fb[k].school_username@) && match fb[k].last_teammate_github_username {
        Some(given) => lookup(alias_table(fb), given@) == Some(h),
        None => false,
    }
}

/// Whether a survey record of a person with a handle of `hs` names a former
/// teammate that the alias table takes to `h`.
pub open spec fn named_teammate(fb: Seq<StudentFeedback>, hs: Seq<Name>, h: Name) -> bool {
    exists|k: int| 0 <= k < fb.len() && #[trigger] teammate_at(fb, hs, k, h)
}

/// Whether `h` may stand in a model: it is one of the handles `hs`, or it is
/// what the alias table makes of a former teammate that a survey record names.
pub open spec fn admitted(fb: Seq<StudentFeedback>, hs: Seq<Name>, h: Name) -> bool {
    hs.contains(h) || named_teammate(fb, hs, h)
}

/// Whether every name of `l` may stand in a model.
pub open spec fn all_admitted(fb: Seq<StudentFeedback>, hs: Seq<Name>, l: Seq<Name>) -> bool {
    forall|j: int| 0 <= j < l.len() ==> admitted(fb, hs, #[trigger] l[j])
}

/// Whether every name filed in table `m` may stand in a model.
pub open spec fn table_admitted(
    fb: Seq<StudentFeedback>,
    hs: Seq<Name>,
    m: Seq<(Name, Seq<Name>)>,
) -> bool {
    forall|i: int| 0 <= i < m.len() ==> all_admitted(fb, hs, (#[trigger] m[i]).1)
}

/// Whether every name in the lists and sets of `p` may stand in a model.
pub open spec fn person_admitted(fb: Seq<StudentFeedback>, hs: Seq<Name>, p: StudentModel) -> bool {
    &&& all_admitted(fb, hs, p.attractors)
    &&& all_admitted(fb, hs, p.classification_attractors)
    &&& all_admitted(fb, hs, p.repulsors)
    &&& all_admitted(fb, hs, p.wants)
    &&& all_admitted(fb, hs, p.vetos)
}

/// Whether the build `f` holds admitted names only: its people have handles
/// of `hs`, and their lists and sets and the members of every category are
/// admitted.
pub open spec fn sound(fb: Seq<StudentFeedback>, hs: Seq<Name>, f: Fusion) -> bool {
    &&& forall|i: int|
        0 <= i < f.people.len() ==> hs.contains((#[trigger] f.people[i]).school_username)
            && person_admitted(fb, hs, f.people[i])
    &&& table_admitted(fb, hs, f.members)
    &&& table_admitted(fb, hs, f.attracted)
    &&& table_admitted(fb, hs, f.repelled)
}

/// A list whose names all occur in an admitted list is admitted.
pub proof fn lemma_sublist_admitted(
    fb: Seq<StudentFeedback>,
    hs: Seq<Name>,
    big: Seq<Name>,
    small: Seq<Name>,
)
    requires
        all_admitted(fb, hs, big),
        forall|x: Name| small.contains(x) ==> big.contains(x),
    ensures
        all_admitted(fb, hs, small),
{
    assert forall|j: int| 0 <= j < small.len() implies admitted(fb, hs, #[trigger] small[j]) by {
        assert(small.contains(small[j]));
        let i = choose|i: int| 0 <= i < big.len() && big[i] == small[j];
        assert(admitted(fb, hs, big[i]));
    }
}

/// Two admitted lists, one after the other, are admitted.
pub proof fn lemma_concat_admitted(
    fb: Seq<StudentFeedback>,
    hs: Seq<Name>,
    a: Seq<Name>,
    b: Seq<Name>,
)
    requires
        all_admitted(fb, hs, a),
        all_admitted(fb, hs, b),
    ensures
        all_admitted(fb, hs, a + b),
{
    assert forall|j: int| 0 <= j < (a + b).len() implies admitted(fb, hs, #[trigger] (a + b)[j]) by {
        if j < a.len() {
            assert(admitted(fb, hs, a[j]));
        } else {
            assert(admitted(fb, hs, b[j - a.len()]));
        }
    }
}

/// Adding admitted names to an admitted set leaves it admitted.
pub proof fn lemma_with_names_admitted(
    fb: Seq<StudentFeedback>,
    hs: Seq<Name>,
    s: Seq<Name>,
    t: Seq<Name>,
)
    requires
        all_admitted(fb, hs, s),
        all_admitted(fb, hs, t),
    ensures
        all_admitted(fb, hs, with_names(s, t)),
{
    lemma_with_names(s, t);
    lemma_concat_admitted(fb, hs, s, t);
    assert forall|x: Name| with_names(s, t).contains(x) implies (s + t).contains(x) by {
        if s.contains(x) {
            let i = choose|i: int| 0 <= i < s.len() && s[i] == x;
            assert((s + t)[i] == x);
        } else {
            let i = choose|i: int| 0 <= i < t.len() && t[i] == x;
            assert((s + t)[s.len() + i] == x);
        }
    }
    lemma_sublist_admitted(fb, hs, s + t, with_names(s, t));
}

/// What is filed under a key of an admitted table is admitted.
pub proof fn lemma_names_under_admitted(
    fb: Seq<StudentFeedback>,
    hs: Seq<Name>,
    m: Seq<(Name, Seq<Name>)>,
    k: Name,
)
    requires
        table_admitted(fb, hs, m),
    ensures
        all_admitted(fb, hs, names_under(m, k)),
{
    lemma_first_index(keys_of(m), k);
}

/// Filing admitted names into an admitted table leaves it admitted.
pub proof fn lemma_with_names_under_admitted(
    fb: Seq<StudentFeedback>,
    hs: Seq<Name>,
    m: Seq<(Name, Seq<Name>)>,
    k: Name,
    xs: Seq<Name>,
)
    requires
        table_admitted(fb, hs, m),
        all_admitted(fb, hs, xs),
    ensures
        table_admitted(fb, hs, with_names_under(m, k, xs)),
{
    let v = with_names(names_under(m, k), xs);
    let after = with_names_under(m, k, xs);
    lemma_names_under_admitted(fb, hs, m, k);
    lemma_with_names_admitted(fb, hs, names_under(m, k), xs);
    lemma_first_index(keys_of(m), k);
    assert forall|i: int| 0 <= i < after.len() implies all_admitted(fb, hs, (#[trigger] after[i]).1) by {
        match first_index(keys_of(m), k) {
            Some(at) => {
                if i != at {
                    assert(after[i] == m[i]);
                }
            },
            None => {
                if i < m.len() {
                    assert(after[i] == m[i]);
                }
            },
        }
    }
}

/// Making a key known leaves an admitted table admitted.
pub proof fn lemma_with_key_admitted(
    fb: Seq<StudentFeedback>,
    hs: Seq<Name>,
    m: Seq<(Name, Seq<Name>)>,
    k: Name,
)
    requires
        table_admitted(fb, hs, m),
    ensures
        table_admitted(fb, hs, with_key(m, k)),
{
    let e = Seq::<Name>::empty();
    assert(with_names(names_under(m, k), e) == names_under(m, k));
    assert(with_key(m, k) == with_names_under(m, k, e));
    lemma_with_names_under_admitted(fb, hs, m, k, e);
}

/// Filing an admitted name under a key leaves an admitted table admitted.
pub proof fn lemma_with_name_under_admitted(
    fb: Seq<StudentFeedback>,
    hs: Seq<Name>,
    m: Seq<(Name, Seq<Name>)>,
    k: Name,
    x: Name,
)
    requires
        table_admitted(fb, hs, m),
        admitted(fb, hs, x),
    ensures
        table_admitted(fb, hs, with_name_under(m, k, x)),
{
    let one = seq![x];
    assert(one.drop_last() =~= Seq::<Name>::empty());
    assert(with_names(names_under(m, k), one) == with_name(names_under(m, k), x)) by {
        reveal_with_fuel(with_names, 2);
    }
    assert(with_name_under(m, k, x) == with_names_under(m, k, one));
    lemma_with_names_under_admitted(fb, hs, m, k, one);
}

/// Filing an admitted handle under categories keeps a build sound.
pub proof fn lemma_filed_all_sound(
    fb: Seq<StudentFeedback>,
    hs: Seq<Name>,
    f: Fusion,
    handle: Name,
    labels: Seq<Name>,
)
    requires
        sound(fb, hs, f),
        admitted(fb, hs, handle),
    ensures
        sound(fb, hs, filed_all(f, handle, labels)),
    decreases labels.len(),
{
    if labels.len() > 0 {
        lemma_filed_all_sound(fb, hs, f, handle, labels.drop_last());
        lemma_filed_sound(fb, hs, filed_all(f, handle, labels.drop_last()), handle, labels.last());
    }
}

/// Filing an admitted handle under a category keeps a build sound.
pub proof fn lemma_filed_sound(
    fb: Seq<StudentFeedback>,
    hs: Seq<Name>,
    f: Fusion,
    handle: Name,
    label: Name,
)
    requires
        sound(fb, hs, f),
        admitted(fb, hs, handle),
    ensures
        sound(fb, hs, filed(f, handle, label)),
{
    if label.len() > 0 {
        lemma_with_name_under_admitted(fb, hs, f.members, label, handle);
    }
}

/// Seeding touches no alias.
pub proof fn lemma_seeded_all_keeps_aliases(f: Fusion, sc: Seq<StudentClassification>)
    ensures
        match seeded_all(f, sc) {
            Ok(g) => g.aliases == f.aliases,
            Err(_) => true,
        },
    decreases sc.len(),
{
    if sc.len() > 0 {
        lemma_seeded_all_keeps_aliases(f, sc.drop_last());
        match seeded_all(f, sc.drop_last()) {
            Ok(g) => {
                let c = sc.last();
                let handle = c.school_username@;
                let fresh = Fusion {
                    people: g.people.push(new_student(c.name@, handle, c.github_username@)),
                    labels: with_key(g.labels, handle),
                    ..g
                };
                lemma_filed_all_keeps(
                    fresh,
                    handle,
                    split_on(text_or_empty(c.classifications), ','),
                );
            },
            Err(_) => {},
        }
    }
}

/// Seeding people whose handles are among `hs` keeps a build sound.
pub proof fn lemma_seeded_all_sound(
    fb: Seq<StudentFeedback>,
    hs: Seq<Name>,
    f: Fusion,
    sc: Seq<StudentClassification>,
)
    requires
        sound(fb, hs, f),
        forall|i: int| 0 <= i < sc.len() ==> hs.contains((#[trigger] sc[i]).school_username@),
    ensures
        match seeded_all(f, sc) {
            Ok(g) => sound(fb, hs, g),
            Err(_) => true,
        },
    decreases sc.len(),
{
    if sc.len() > 0 {
        assert forall|i: int| 0 <= i < sc.drop_last().len() implies hs.contains(
            (#[trigger] sc.drop_last()[i]).school_username@,
        ) by {
            assert(sc.drop_last()[i] == sc[i]);
        }
        lemma_seeded_all_sound(fb, hs, f, sc.drop_last());
        match seeded_all(f, sc.drop_last()) {
            Ok(g) => {
                let c = sc.last();
                assert(c == sc[sc.len() - 1]);
                let handle = c.school_username@;
                let fresh = Fusion {
                    people: g.people.push(new_student(c.name@, handle, c.github_username@)),
                    labels: with_key(g.labels, handle),
                    ..g
                };
                assert(sound(fb, hs, fresh));
                lemma_filed_all_sound(
                    fb,
                    hs,
                    fresh,
                    handle,
                    split_on(text_or_empty(c.classifications), ','),
                );
            },
            Err(_) => {},
        }
    }
}

/// Applying a rule keeps a build sound.
pub proof fn lemma_related_sound(
    fb: Seq<StudentFeedback>,
    hs: Seq<Name>,
    f: Fusion,
    r: ClassificationRelations,
)
    requires
        sound(fb, hs, f),
    ensures
        sound(fb, hs, related(f, r)),
{
    let objects = names_under(f.members, r.class_other@);
    lemma_names_under_admitted(fb, hs, f.members, r.class_other@);
    lemma_with_names_under_admitted(fb, hs, f.attracted, r.class@, objects);
    lemma_with_names_under_admitted(fb, hs, f.repelled, r.class@, objects);
    lemma_with_key_admitted(fb, hs, f.attracted, r.class@);
    lemma_with_key_admitted(fb, hs, f.repelled, r.class@);
}

/// Applying rules keeps a build sound.
pub proof fn lemma_related_all_sound(
    fb: Seq<StudentFeedback>,
    hs: Seq<Name>,
    f: Fusion,
    cr: Seq<ClassificationRelations>,
)
    requires
        sound(fb, hs, f),
    ensures
        sound(fb, hs, related_all(f, cr)),
    decreases cr.len(),
{
    if cr.len() > 0 {
        lemma_related_all_sound(fb, hs, f, cr.drop_last());
        lemma_related_sound(fb, hs, related_all(f, cr.drop_last()), cr.last());
    }
}

/// Applying the rules of one object category keeps a build sound.
pub proof fn lemma_related_through_sound(
    fb: Seq<StudentFeedback>,
    hs: Seq<Name>,
    f: Fusion,
    cr: Seq<ClassificationRelations>,
    label: Name,
)
    requires
        sound(fb, hs, f),
    ensures
        sound(fb, hs, related_through(f, cr, label)),
    decreases cr.len(),
{
    if cr.len() > 0 {
        lemma_related_through_sound(fb, hs, f, cr.drop_last(), label);
        lemma_related_sound(fb, hs, related_through(f, cr.drop_last(), label), cr.last());
    }
}

/// The alias table that a build collects depends on the aliases it began
/// with and on the survey records alone.
pub proof fn lemma_aliased_all_aliases(f: Fusion, g: Fusion, some: Seq<StudentFeedback>)
    requires
        f.aliases == g.aliases,
    ensures
        aliased_all(f, some).aliases == aliased_all(g, some).aliases,
    decreases some.len(),
{
    if some.len() > 0 {
        lemma_aliased_all_aliases(f, g, some.drop_last());
    }
}

/// The name that the former teammate of survey record `k` resolves to is admitted.
pub proof fn lemma_resolved_admitted(fb: Seq<StudentFeedback>, hs: Seq<Name>, f: Fusion, k: int)
    requires
        sound(fb, hs, f),
        f.aliases == alias_table(fb),
        0 <= k < fb.len(),
        hs.contains(fb[k].school_username@),
    ensures
        match fb[k].last_teammate_github_username {
            Some(given) => match resolved(f, given@) {
                Some(h) => admitted(fb, hs, h),
                None => true,
            },
            None => true,
        },
{
    match fb[k].last_teammate_github_username {
        Some(given) => {
            match lookup(f.aliases, given@) {
                Some(h) => {
                    assert(teammate_at(fb, hs, k, h));
                },
                None => {
                    if known(f.people, given@) {
                        let j = choose|j: int|
                            0 <= j < handles(f.people).len() && handles(f.people)[j] == given@;
                        assert(f.people[j].school_username == given@);
                    }
                },
            }
        },
        None => {},
    }
}

/// Whether what is staged holds admitted names only.
pub open spec fn staged_sound(fb: Seq<StudentFeedback>, hs: Seq<Name>, st: Staged) -> bool {
    &&& sound(fb, hs, st.fusion)
    &&& all_admitted(fb, hs, st.vetos)
    &&& all_admitted(fb, hs, st.wants)
}

/// Hearing feedback on an admitted teammate stages admitted names only.
pub proof fn lemma_heard_all_sound(
    fb: Seq<StudentFeedback>,
    hs: Seq<Name>,
    st: Staged,
    cr: Seq<ClassificationRelations>,
    table: Seq<RuleModel>,
    teammate: Name,
    phrases: Seq<Name>,
)
    requires
        staged_sound(fb, hs, st),
        admitted(fb, hs, teammate),
    ensures
        match heard_all(st, cr, table, teammate, phrases) {
            Ok(s) => staged_sound(fb, hs, s),
            Err(_) => true,
        },
    decreases phrases.len(),
{
    if phrases.len() > 0 {
        lemma_heard_all_sound(fb, hs, st, cr, table, teammate, phrases.drop_last());
        match heard_all(st, cr, table, teammate, phrases.drop_last()) {
            Ok(s) => {
                match rule_for(table, trimmed(phrases.last())) {
                    Some(rule) => {
                        let after = heard(s, cr, teammate, rule);
                        match rule.category {
                            Some(c) => {
                                lemma_filed_sound(fb, hs, s.fusion, teammate, c);
                                lemma_related_through_sound(
                                    fb,
                                    hs,
                                    filed(s.fusion, teammate, c),
                                    cr,
                                    c,
                                );
                            },
                            None => {},
                        }
                        lemma_concat_admitted(fb, hs, s.vetos, seq![teammate]);
                        lemma_concat_admitted(fb, hs, s.wants, seq![teammate]);
                        assert(s.vetos + seq![teammate] =~= s.vetos.push(teammate));
                        assert(s.wants + seq![teammate] =~= s.wants.push(teammate));
                    },
                    None => {},
                }
            },
            Err(_) => {},
        }
    }
}

/// An explicit field that is kept names one of the handles it was checked against.
pub proof fn lemma_named_admitted(
    fb: Seq<StudentFeedback>,
    hs: Seq<Name>,
    checked: Seq<Name>,
    field: Option<String>,
)
    requires
        forall|x: Name| checked.contains(x) ==> hs.contains(x),
    ensures
        all_admitted(fb, hs, named(checked, field)),
{
}

/// The list that is kept of admitted names and explicit fields is admitted.
pub proof fn lemma_kept_admitted(
    fb: Seq<StudentFeedback>,
    hs: Seq<Name>,
    checked: Seq<Name>,
    earlier: Seq<Name>,
    a: Option<String>,
    b: Option<String>,
    c: Option<String>,
    staged: Seq<Name>,
)
    requires
        forall|x: Name| checked.contains(x) ==> hs.contains(x),
        all_admitted(fb, hs, earlier),
        all_admitted(fb, hs, staged),
    ensures
        all_admitted(
            fb,
            hs,
            capped(earlier + named(checked, a) + named(checked, b) + named(checked, c)) + staged,
        ),
{
    lemma_named_admitted(fb, hs, checked, a);
    lemma_named_admitted(fb, hs, checked, b);
    lemma_named_admitted(fb, hs, checked, c);
    lemma_concat_admitted(fb, hs, earlier, named(checked, a));
    lemma_concat_admitted(fb, hs, earlier + named(checked, a), named(checked, b));
    lemma_concat_admitted(
        fb,
        hs,
        earlier + named(checked, a) + named(checked, b),
        named(checked, c),
    );
    let all = earlier + named(checked, a) + named(checked, b) + named(checked, c);
    lemma_capped(all);
    lemma_sublist_admitted(fb, hs, all, capped(all));
    lemma_concat_admitted(fb, hs, capped(all), staged);
}

/// Fusing survey record `k` keeps a build sound.
pub proof fn lemma_fused_sound(
    fb: Seq<StudentFeedback>,
    hs: Seq<Name>,
    f: Fusion,
    cr: Seq<ClassificationRelations>,
    table: Seq<RuleModel>,
    k: int,
)
    requires
        sound(fb, hs, f),
        f.aliases == alias_table(fb),
        0 <= k < fb.len(),
    ensures
        match fused(f, cr, table, fb[k]) {
            Ok(g) => sound(fb, hs, g) && g.aliases == alias_table(fb),
            Err(_) => true,
        },
{
    let rec = fb[k];
    let handle = rec.school_username@;
    lemma_first_index(handles(f.people), handle);
    lemma_staged_for_keeps(f, cr, table, rec);
    match first_index(handles(f.people), handle) {
        None => {},
        Some(i) => {
            assert(f.people[i].school_username == handle);
            let start = Staged { fusion: f, vetos: Seq::empty(), wants: Seq::empty() };
            lemma_resolved_admitted(fb, hs, f, k);
            match rec.last_teammate_github_username {
                Some(given) => {
                    match resolved(f, given@) {
                        Some(teammate) => {
                            lemma_heard_all_sound(
                                fb,
                                hs,
                                start,
                                cr,
                                table,
                                teammate,
                                split_on(text_or_empty(rec.last_teammate_feedback), ','),
                            );
                        },
                        None => {},
                    }
                },
                None => {},
            }
            match staged_for(f, cr, table, rec) {
                Ok(st) => {
                    let g = st.fusion;
                    let checked = handles(g.people);
                    let p = g.people[i];
                    assert forall|x: Name| checked.contains(x) implies hs.contains(x) by {
                        let j = choose|j: int| 0 <= j < checked.len() && checked[j] == x;
                        assert(g.people[j].school_username == x);
                    }
                    lemma_kept_admitted(
                        fb,
                        hs,
                        checked,
                        p.vetos,
                        rec.veto0,
                        rec.veto1,
                        rec.veto2,
                        st.vetos,
                    );
                    lemma_kept_admitted(
                        fb,
                        hs,
                        checked,
                        p.wants,
                        rec.want0,
                        rec.want1,
                        rec.want2,
                        st.wants,
                    );
                    let q = answered(p, checked, st, rec);
                    assert(person_admitted(fb, hs, q));
                    let after = fused(f, cr, table, rec)->Ok_0;
                    assert forall|j: int| 0 <= j < after.people.len() implies hs.contains(
                        (#[trigger] after.people[j]).school_username,
                    ) && person_admitted(fb, hs, after.people[j]) by {
                        if j != i {
                            assert(after.people[j] == g.people[j]);
                        }
                    }
                },
                Err(_) => {},
            }
        },
    }
}

/// Fusing the first `n` survey records keeps a build sound.
pub proof fn lemma_fused_all_sound(
    fb: Seq<StudentFeedback>,
    hs: Seq<Name>,
    f: Fusion,
    cr: Seq<ClassificationRelations>,
    table: Seq<RuleModel>,
    n: int,
)
    requires
        sound(fb, hs, f),
        f.aliases == alias_table(fb),
        0 <= n <= fb.len(),
    ensures
        match fused_all(f, cr, table, fb.take(n)) {
            Ok(g) => sound(fb, hs, g) && g.aliases == alias_table(fb),
            Err(_) => true,
        },
    decreases n,
{
    if n > 0 {
        assert(fb.take(n).drop_last() =~= fb.take(n - 1));
        assert(fb.take(n).last() == fb[n - 1]);
        lemma_fused_all_sound(fb, hs, f, cr, table, n - 1);
        match fused_all(f, cr, table, fb.take(n - 1)) {
            Ok(g) => {
                lemma_fused_sound(fb, hs, g, cr, table, n - 1);
            },
            Err(_) => {},
        }
    }
}

/// Drawing rules of a sound build into an admitted person leaves the person admitted.
pub proof fn lemma_drawn_admitted(
    fb: Seq<StudentFeedback>,
    hs: Seq<Name>,
    f: Fusion,
    p: StudentModel,
    labels: Seq<Name>,
)
    requires
        sound(fb, hs, f),
        person_admitted(fb, hs, p),
    ensures
        person_admitted(fb, hs, drawn(f, p, labels)),
    decreases labels.len(),
{
    if labels.len() > 0 {
        lemma_drawn_admitted(fb, hs, f, p, labels.drop_last());
        let q = drawn(f, p, labels.drop_last());
        lemma_names_under_admitted(fb, hs, f.attracted, labels.last());
        lemma_names_under_admitted(fb, hs, f.repelled, labels.last());
        lemma_with_names_admitted(
            fb,
            hs,
            q.classification_attractors,
            names_under(f.attracted, labels.last()),
        );
        lemma_with_names_admitted(fb, hs, q.repulsors, names_under(f.repelled, labels.last()));
    }
}

/// Merging a person of a sound build leaves the person admitted.
pub proof fn lemma_merged_admitted(
    fb: Seq<StudentFeedback>,
    hs: Seq<Name>,
    f: Fusion,
    p: StudentModel,
)
    requires
        sound(fb, hs, f),
        person_admitted(fb, hs, p),
    ensures
        person_admitted(fb, hs, merged(f, p)),
{
    lemma_with_names_admitted(fb, hs, p.repulsors, p.vetos);
    lemma_with_names_admitted(fb, hs, p.attractors, p.wants);
    lemma_drawn_admitted(
        fb,
        hs,
        f,
        StudentModel {
            repulsors: with_names(p.repulsors, p.vetos),
            attractors: with_names(p.attractors, p.wants),
            ..p
        },
        names_under(f.labels, p.school_username),
    );
}

/// Every name in a person's lists and sets is the handle of a person of the
/// population, or what the alias table makes of a former teammate that the
/// survey record of a person of the population names.
pub proof fn lemma_matrix_names(
    fb: Seq<StudentFeedback>,
    sc: Seq<StudentClassification>,
    cr: Seq<ClassificationRelations>,
)
    ensures
        match matrix(fb, sc, cr) {
            Ok(m) => forall|i: int|
                0 <= i < m.people.len() ==> person_admitted(
                    fb,
                    record_handles(sc),
                    #[trigger] m.people[i],
                ),
            Err(_) => true,
        },
{
    let hs = record_handles(sc);
    assert(sound(fb, hs, blank()));
    assert forall|i: int| 0 <= i < sc.len() implies hs.contains(
        (#[trigger] sc[i]).school_username@,
    ) by {
        assert(hs[i] == sc[i].school_username@);
    }
    lemma_seeded_all_sound(fb, hs, blank(), sc);
    match seeded_all(blank(), sc) {
        Ok(a) => {
            lemma_related_all_sound(fb, hs, a, cr);
            let b = related_all(a, cr);
            lemma_seeded_all_keeps_aliases(blank(), sc);
            lemma_related_all_keeps(a, cr);
            lemma_aliased_all_keeps(b, fb);
            lemma_aliased_all_aliases(b, blank(), fb);
            let c0 = aliased_all(b, fb);
            assert(sound(fb, hs, c0));
            lemma_fused_all_sound(fb, hs, c0, cr, vocabulary(), fb.len() as int);
            assert(fb.take(fb.len() as int) =~= fb);
            match fused_all(c0, cr, vocabulary(), fb) {
                Ok(c) => {
                    let m = merged_all(c, c.people.len());
                    lemma_merged_all_keeps(c, c.people.len());
                    assert forall|i: int| 0 <= i < m.people.len() implies person_admitted(
                        fb,
                        hs,
                        #[trigger] m.people[i],
                    ) by {
                        assert(person_admitted(fb, hs, c.people[i]));
                        lemma_merged_admitted(fb, hs, c, c.people[i]);
                    }
                },
                Err(_) => {},
            }
        },
        Err(_) => {},
    }
}

/// A handle that nobody in the population has, and that is not what the
/// alias table makes of a former teammate named by the survey record of a
/// person of the population, is in nobody's repulsors, attractors or lists.
pub proof fn lemma_stranger_is_nowhere(
    fb: Seq<StudentFeedback>,
    sc: Seq<StudentClassification>,
    cr: Seq<ClassificationRelations>,
    h: Name,
)
    requires
        !record_handles(sc).contains(h),
        !named_teammate(fb, record_handles(sc), h),
    ensures
        match matrix(fb, sc, cr) {
            Ok(m) => forall|i: int|
                0 <= i < m.people.len() ==> !(#[trigger] m.people[i]).repulsors.contains(h)
                    && !m.people[i].attractors.contains(h)
                    && !m.people[i].classification_attractors.contains(h)
                    && !m.people[i].vetos.contains(h) && !m.people[i].wants.contains(h),
            Err(_) => true,
        },
{
    lemma_matrix_names(fb, sc, cr);
    let hs = record_handles(sc);
    match matrix(fb, sc, cr) {
        Ok(m) => {
            assert forall|i: int| 0 <= i < m.people.len() implies !(#[trigger] m.people[i]).repulsors.contains(
                h,
            ) && !m.people[i].attractors.contains(h) && !m.people[i].classification_attractors.contains(
                h,
            ) && !m.people[i].vetos.contains(h) && !m.people[i].wants.contains(h) by {
                let p = m.people[i];
                assert(person_admitted(fb, hs, p));
                lemma_admitted_holds_no_stranger(fb, hs, p.repulsors, h);
                lemma_admitted_holds_no_stranger(fb, hs, p.attractors, h);
                lemma_admitted_holds_no_stranger(fb, hs, p.classification_attractors, h);
                lemma_admitted_holds_no_stranger(fb, hs, p.vetos, h);
                lemma_admitted_holds_no_stranger(fb, hs, p.wants, h);
            }
        },
        Err(_) => {},
    }
}

/// An admitted list holds no name that is not admitted.
pub proof fn lemma_admitted_holds_no_stranger(
    fb: Seq<StudentFeedback>,
    hs: Seq<Name>,
    l: Seq<Name>,
    h: Name,
)
    requires
        all_admitted(fb, hs, l),
        !admitted(fb, hs, h),
    ensures
        !l.contains(h),
{
    if l.contains(h) {
        let j = choose|j: int| 0 <= j < l.len() && l[j] == h;
        assert(admitted(fb, hs, l[j]));
    }
}

/// The warning that answers a refused handle `h` of `student` that names nobody.
pub open spec fn veto_warning(student: Name, h: Name) -> WarningModel {
    WarningModel::InvalidVeto { student, handle: h }
}

/// The warning that answers a wanted handle `h` of `student` that names nobody.
pub open spec fn want_warning(student: Name, h: Name) -> WarningModel {
    WarningModel::InvalidWant { student, handle: h }
}

/// Whether one of the three fields holds the text `t`.
pub open spec fn among(a: Option<String>, b: Option<String>, c: Option<String>, t: Name) -> bool {
    text_of(a) == Some(t) || text_of(b) == Some(t) || text_of(c) == Some(t)
}

/// Where one of three explicit fields holds `t` and its canonical form names
/// nobody, that form is among the handles that are dropped.
pub proof fn lemma_refused_among(
    hs: Seq<Name>,
    a: Option<String>,
    b: Option<String>,
    c: Option<String>,
    t: Name,
)
    requires
        among(a, b, c, t),
        !hs.contains(canonical(t)),
    ensures
        (refused(hs, a) + refused(hs, b) + refused(hs, c)).contains(canonical(t)),
{
    let all = refused(hs, a) + refused(hs, b) + refused(hs, c);
    if text_of(a) == Some(t) {
        assert(all[0] == canonical(t));
    } else if text_of(b) == Some(t) {
        assert(all[refused(hs, a).len() as int] == canonical(t));
    } else {
        assert(all[(refused(hs, a).len() + refused(hs, b).len()) as int] == canonical(t));
    }
}

/// A survey record takes no warning back.
pub proof fn lemma_fused_keeps_warnings(
    f: Fusion,
    cr: Seq<ClassificationRelations>,
    table: Seq<RuleModel>,
    rec: StudentFeedback,
    w: WarningModel,
)
    requires
        f.warnings.contains(w),
    ensures
        match fused(f, cr, table, rec) {
            Ok(g) => g.warnings.contains(w),
            Err(_) => true,
        },
{
    lemma_staged_for_keeps(f, cr, table, rec);
    let at = choose|at: int| 0 <= at < f.warnings.len() && f.warnings[at] == w;
    match fused(f, cr, table, rec) {
        Ok(g) => {
            assert(g.warnings[at] == w);
        },
        Err(_) => {},
    }
}

/// A survey record of a person of the population with an explicit veto that
/// names nobody leaves the warning for it, and one with such a wish leaves
/// the warning for that.
pub proof fn lemma_fused_warns(
    f: Fusion,
    cr: Seq<ClassificationRelations>,
    table: Seq<RuleModel>,
    rec: StudentFeedback,
    t: Name,
)
    requires
        known(f.people, rec.school_username@),
        !known(f.people, canonical(t)),
    ensures
        match fused(f, cr, table, rec) {
            Ok(g) => {
                &&& among(rec.veto0, rec.veto1, rec.veto2, t) ==> g.warnings.contains(
                    veto_warning(rec.school_username@, canonical(t)),
                )
                &&& among(rec.want0, rec.want1, rec.want2, t) ==> g.warnings.contains(
                    want_warning(rec.school_username@, canonical(t)),
                )
            },
            Err(_) => true,
        },
{
    let handle = rec.school_username@;
    lemma_staged_for_keeps(f, cr, table, rec);
    lemma_first_index(handles(f.people), handle);
    match fused(f, cr, table, rec) {
        Ok(g) => {
            let st = staged_for(f, cr, table, rec)->Ok_0;
            let hs = handles(st.fusion.people);
            let bad_vetos = refused(hs, rec.veto0) + refused(hs, rec.veto1) + refused(hs, rec.veto2);
            let bad_wants = refused(hs, rec.want0) + refused(hs, rec.want1) + refused(hs, rec.want2);
            let vw = invalid_vetos(handle, bad_vetos);
            let ww = invalid_wants(handle, bad_wants);
            assert(g.warnings == st.fusion.warnings + vw + ww);
            if among(rec.veto0, rec.veto1, rec.veto2, t) {
                lemma_refused_among(hs, rec.veto0, rec.veto1, rec.veto2, t);
                let j = choose|j: int| 0 <= j < bad_vetos.len() && bad_vetos[j] == canonical(t);
                assert(vw[j] == veto_warning(handle, canonical(t)));
                assert(g.warnings[st.fusion.warnings.len() + j] == vw[j]);
            }
            if among(rec.want0, rec.want1, rec.want2, t) {
                lemma_refused_among(hs, rec.want0, rec.want1, rec.want2, t);
                let j = choose|j: int| 0 <= j < bad_wants.len() && bad_wants[j] == canonical(t);
                assert(ww[j] == want_warning(handle, canonical(t)));
                assert(g.warnings[st.fusion.warnings.len() + vw.len() + j] == ww[j]);
            }
        },
        Err(_) => {},
    }
}

/// Where all survey records fuse, the first `n` of them fuse, and what they
/// warn of is still warned of at the end.
pub proof fn lemma_fused_all_keeps_warnings(
    f: Fusion,
    cr: Seq<ClassificationRelations>,
    table: Seq<RuleModel>,
    some: Seq<StudentFeedback>,
    n: int,
    w: WarningModel,
)
    requires
        0 <= n <= some.len(),
        fused_all(f, cr, table, some).is_ok(),
    ensures
        fused_all(f, cr, table, some.take(n)).is_ok(),
        fused_all(f, cr, table, some.take(n))->Ok_0.warnings.contains(w) ==> fused_all(
            f,
            cr,
            table,
            some,
        )->Ok_0.warnings.contains(w),
    decreases some.len(),
{
    if n < some.len() {
        assert(some.drop_last().take(n) =~= some.take(n));
        lemma_fused_all_keeps_warnings(f, cr, table, some.drop_last(), n, w);
        let g = fused_all(f, cr, table, some.drop_last())->Ok_0;
        if g.warnings.contains(w) {
            lemma_fused_keeps_warnings(g, cr, table, some.last(), w);
        }
    } else {
        assert(some.take(n) =~= some);
    }
}

/// Merging takes no warning back.
pub proof fn lemma_merged_all_keeps_warnings(f: Fusion, n: nat, w: WarningModel)
    requires
        f.warnings.contains(w),
    ensures
        merged_all(f, n).warnings.contains(w),
    decreases n,
{
    if n > 0 {
        lemma_merged_all_keeps_warnings(f, (n - 1) as nat, w);
        let g = merged_all(f, (n - 1) as nat);
        let at = choose|at: int| 0 <= at < g.warnings.len() && g.warnings[at] == w;
        assert(merged_all(f, n).warnings[at] == w);
    }
}

/// An explicit veto or wish of a person of the population that names nobody
/// of the population is answered with its warning.
pub proof fn lemma_stranger_is_warned_of(
    fb: Seq<StudentFeedback>,
    sc: Seq<StudentClassification>,
    cr: Seq<ClassificationRelations>,
    k: int,
    t: Name,
)
    requires
        0 <= k < fb.len(),
        record_handles(sc).contains(fb[k].school_username@),
        !record_handles(sc).contains(canonical(t)),
    ensures
        match matrix(fb, sc, cr) {
            Ok(m) => {
                &&& among(fb[k].veto0, fb[k].veto1, fb[k].veto2, t) ==> m.warnings.contains(
                    veto_warning(fb[k].school_username@, canonical(t)),
                )
                &&& among(fb[k].want0, fb[k].want1, fb[k].want2, t) ==> m.warnings.contains(
                    want_warning(fb[k].school_username@, canonical(t)),
                )
            },
            Err(_) => true,
        },
{
    let table = vocabulary();
    let student = fb[k].school_username@;
    assert(handles(blank().people) =~= Seq::<Name>::empty());
    lemma_seeded_all_handles(blank(), sc);
    match seeded_all(blank(), sc) {
        Ok(a) => {
            assert(handles(a.people) =~= record_handles(sc));
            lemma_related_all_keeps(a, cr);
            let b = related_all(a, cr);
            lemma_aliased_all_keeps(b, fb);
            let c0 = aliased_all(b, fb);
            match fused_all(c0, cr, table, fb) {
                Ok(c) => {
                    let vw = veto_warning(student, canonical(t));
                    let ww = want_warning(student, canonical(t));
                    lemma_fused_all_keeps_warnings(c0, cr, table, fb, k, vw);
                    lemma_fused_all_keeps_warnings(c0, cr, table, fb, k + 1, vw);
                    lemma_fused_all_keeps_warnings(c0, cr, table, fb, k + 1, ww);
                    let before = fused_all(c0, cr, table, fb.take(k))->Ok_0;
                    lemma_fused_all_keeps_handles(c0, cr, table, fb.take(k));
                    assert(fb.take(k + 1).drop_last() =~= fb.take(k));
                    assert(fb.take(k + 1).last() == fb[k]);
                    lemma_fused_warns(before, cr, table, fb[k], t);
                    if among(fb[k].veto0, fb[k].veto1, fb[k].veto2, t) {
                        lemma_merged_all_keeps_warnings(c, c.people.len(), vw);
                    }
                    if among(fb[k].want0, fb[k].want1, fb[k].want2, t) {
                        lemma_merged_all_keeps_warnings(c, c.people.len(), ww);
                    }
                },
                Err(_) => {},
            }
        },
        Err(_) => {},
    }
}

/// Whether `x` is filed in table `m` under one of `labels`.
pub open spec fn under_any(m: Seq<(Name, Seq<Name>)>, labels: Seq<Name>, x: Name) -> bool {
    exists|j: int| 0 <= j < labels.len() && names_under(m, #[trigger] labels[j]).contains(x)
}

/// What drawing rules in adds: a person's classification attractors are
/// those they had and whoever attracts one of the categories; their
/// repulsors are those they had and whoever repels one of the categories.
pub proof fn lemma_drawn_sets(f: Fusion, p: StudentModel, labels: Seq<Name>)
    ensures
        forall|x: Name| #[trigger]
            drawn(f, p, labels).classification_attractors.contains(x)
                <==> p.classification_attractors.contains(x) || under_any(f.attracted, labels, x),
        forall|x: Name| #[trigger]
            drawn(f, p, labels).repulsors.contains(x) <==> p.repulsors.contains(x) || under_any(
                f.repelled,
                labels,
                x,
            ),
        p.classification_attractors.no_duplicates() ==> drawn(
            f,
            p,
            labels,
        ).classification_attractors.no_duplicates(),
        p.repulsors.no_duplicates() ==> drawn(f, p, labels).repulsors.no_duplicates(),
    decreases labels.len(),
{
    if labels.len() > 0 {
        let init = labels.drop_last();
        let last = labels.last();
        lemma_drawn_sets(f, p, init);
        let q = drawn(f, p, init);
        lemma_with_names(q.classification_attractors, names_under(f.attracted, last));
        lemma_with_names(q.repulsors, names_under(f.repelled, last));
        assert forall|x: Name| under_any(f.attracted, labels, x) <==> under_any(
            f.attracted,
            init,
            x,
        ) || names_under(f.attracted, last).contains(x) by {
            lemma_under_any_push(f.attracted, labels, x);
        }
        assert forall|x: Name| under_any(f.repelled, labels, x) <==> under_any(
            f.repelled,
            init,
            x,
        ) || names_under(f.repelled, last).contains(x) by {
            lemma_under_any_push(f.repelled, labels, x);
        }
    }
}

/// A name is filed under one of several labels where it is filed under the
/// last of them or under one of those before.
pub proof fn lemma_under_any_push(m: Seq<(Name, Seq<Name>)>, labels: Seq<Name>, x: Name)
    requires
        labels.len() > 0,
    ensures
        under_any(m, labels, x) <==> under_any(m, labels.drop_last(), x) || names_under(
            m,
            labels.last(),
        ).contains(x),
{
    let init = labels.drop_last();
    if under_any(m, labels, x) {
        let j = choose|j: int|
            0 <= j < labels.len() && names_under(m, #[trigger] labels[j]).contains(x);
        if j < init.len() {
            assert(init[j] == labels[j]);
        }
    }
    if under_any(m, init, x) {
        let j = choose|j: int| 0 <= j < init.len() && names_under(m, #[trigger] init[j]).contains(x);
        assert(labels[j] == init[j]);
    }
    if names_under(m, labels.last()).contains(x) {
        assert(labels[labels.len() - 1] == labels.last());
    }
}

/// What merging makes of a person: the attractors are those they had and
/// whom they want; the classification attractors are those they had and
/// whoever attracts one of their categories; the repulsors are those they
/// had, whom they refuse, and whoever repels one of their categories.
pub proof fn lemma_merged_sets(f: Fusion, p: StudentModel)
    ensures
        forall|x: Name| #[trigger]
            merged(f, p).attractors.contains(x) <==> p.attractors.contains(x) || p.wants.contains(x),
        forall|x: Name| #[trigger]
            merged(f, p).classification_attractors.contains(x)
                <==> p.classification_attractors.contains(x) || under_any(
                f.attracted,
                names_under(f.labels, p.school_username),
                x,
            ),
        forall|x: Name| #[trigger]
            merged(f, p).repulsors.contains(x) <==> p.repulsors.contains(x) || p.vetos.contains(x)
                || under_any(f.repelled, names_under(f.labels, p.school_username), x),
        merged(f, p).wants == p.wants,
        merged(f, p).vetos == p.vetos,
        merged(f, p).ok_solo == p.ok_solo,
        merged(f, p).school_username == p.school_username,
{
    let base = StudentModel {
        repulsors: with_names(p.repulsors, p.vetos),
        attractors: with_names(p.attractors, p.wants),
        ..p
    };
    let labels = names_under(f.labels, p.school_username);
    lemma_with_names(p.repulsors, p.vetos);
    lemma_with_names(p.attractors, p.wants);
    lemma_drawn_sets(f, base, labels);
    crate::fusion::lemma_drawn_keeps(f, base, labels);
}

} // verus!
