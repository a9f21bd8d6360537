use team_assign::fusion::MAX_EXPLICIT;
use team_assign::matrix::{cap_explicit, copy_names, student_matrix, turn_names, Builder};
use team_assign::phrases::{find_rule, vocabulary_table};
use team_assign::records::{ClassificationRelations, StudentClassification, StudentFeedback};
use team_assign::report::{BuildError, Warning};
use team_assign::student::{Student, Students};

fn names(items: &[&str]) -> Vec<String> {
    items.iter().map(|s| s.to_string()).collect()
}

fn some(s: &str) -> Option<String> {
    Some(s.to_string())
}

fn classified(handle: &str, categories: Option<&str>) -> StudentClassification {
    StudentClassification {
        name: format!("Name of {}", handle),
        school_username: handle.to_string(),
        github_username: format!("gh-{}", handle),
        classifications: categories.map(String::from),
    }
}

fn survey(handle: &str) -> StudentFeedback {
    StudentFeedback {
        email_addr: format!("{}@example.edu", handle),
        school_username: handle.to_string(),
        github_username: format!("gh-{}", handle),
        solo: String::new(),
        last_teammate_github_username: None,
        last_teammate_feedback: None,
        last_teammate_additional_feedback: None,
        veto0: None,
        veto1: None,
        veto2: None,
        want0: None,
        want1: None,
        want2: None,
    }
}

fn rule(class: &str, other: &str, relation: &str) -> ClassificationRelations {
    ClassificationRelations {
        class: class.to_string(),
        class_other: other.to_string(),
        relation: relation.to_string(),
    }
}

fn population(handles: &[&str]) -> Vec<StudentClassification> {
    handles.iter().map(|h| classified(h, None)).collect()
}

fn built(
    fb: Vec<StudentFeedback>,
    sc: Vec<StudentClassification>,
    cr: Vec<ClassificationRelations>,
) -> (Students, Vec<Warning>) {
    student_matrix(fb, sc, cr).expect("the records are well formed")
}

fn one<'a>(students: &'a Students, handle: &str) -> &'a Student {
    students.get(handle).expect("the person is in the population")
}

#[test]
fn empty_input_gives_empty_population() {
    let (students, warnings) = built(vec![], vec![], vec![]);
    assert_eq!(students.len(), 0);
    assert!(warnings.is_empty());
}

#[test]
fn one_person_per_classification_record_in_order() {
    let (students, warnings) = built(vec![], population(&["c", "a", "b"]), vec![]);
    assert_eq!(students.len(), 3);
    assert_eq!(students.handle_list(), names(&["c", "a", "b"]));
    assert_eq!(students.at(1).school_username, "a");
    assert_eq!(students.at(1).email, "Name of a");
    assert_eq!(students.at(1).github_username, "gh-a");
    assert!(!students.at(1).ok_solo);
    assert_eq!(students.at(1).repulsors.len(), 0);
    assert_eq!(students.at(1).attractors.len(), 0);
    assert_eq!(students.at(1).classification_attractors.len(), 0);
    assert!(warnings.is_empty());
}

#[test]
fn duplicate_handle_is_an_error() {
    let r = student_matrix(vec![], population(&["a", "b", "a", "b"]), vec![]);
    assert_eq!(r.err(), Some(BuildError::DuplicateHandle { handle: "a".to_string() }));
}

#[test]
fn duplicate_handle_is_reported_before_unknown_phrase() {
    let mut f = survey("a");
    f.last_teammate_github_username = some("gh-b");
    f.last_teammate_feedback = some("Nonsense.");
    let r = student_matrix(vec![f], population(&["a", "b", "b"]), vec![]);
    assert_eq!(r.err(), Some(BuildError::DuplicateHandle { handle: "b".to_string() }));
}

#[test]
fn cap_keeps_three_distinct_vetoes_in_reverse_field_order() {
    let mut f = survey("a");
    f.veto0 = some("x");
    f.veto1 = some("y");
    f.veto2 = some("z");
    let (students, warnings) = built(vec![f], population(&["a", "x", "y", "z"]), vec![]);
    assert_eq!(one(&students, "a").vetos, names(&["z", "y", "x"]));
    assert_eq!(one(&students, "a").repulsors.to_vec(), names(&["z", "y", "x"]));
    assert!(warnings.is_empty());
}

#[test]
fn cap_keeps_three_distinct_wants_in_reverse_field_order() {
    let mut f = survey("a");
    f.want0 = some("x");
    f.want1 = some("y");
    f.want2 = some("z");
    let (students, _) = built(vec![f], population(&["a", "x", "y", "z"]), vec![]);
    assert_eq!(one(&students, "a").wants, names(&["z", "y", "x"]));
    assert_eq!(one(&students, "a").attractors.to_vec(), names(&["z", "y", "x"]));
    assert_eq!(one(&students, "a").repulsors.len(), 0);
}

#[test]
fn cap_explicit_keeps_the_last_of_equal_entries() {
    assert_eq!(cap_explicit(&names(&["x", "y", "x"])), names(&["x", "y"]));
    assert_eq!(cap_explicit(&names(&["x", "y", "y"])), names(&["y", "x"]));
    assert_eq!(cap_explicit(&names(&["x", "x", "x"])), names(&["x"]));
    assert_eq!(cap_explicit(&names(&[])), names(&[]));
    assert_eq!(cap_explicit(&names(&["x"])), names(&["x"]));
}

#[test]
fn cap_explicit_prefers_later_entries_beyond_three() {
    assert_eq!(MAX_EXPLICIT, 3);
    assert_eq!(cap_explicit(&names(&["a", "b", "c", "d"])), names(&["d", "c", "b"]));
    assert_eq!(cap_explicit(&names(&["a", "b", "a", "c", "d", "b", "e"])), names(&["e", "b", "d"]));
    assert_eq!(cap_explicit(&names(&["r", "q", "p", "r", "s"])), names(&["s", "r", "p"]));
}

#[test]
fn cap_explicit_agrees_with_unique_from_the_back() {
    let lists: [&[&str]; 7] = [
        &[],
        &["a"],
        &["a", "a"],
        &["a", "b", "a"],
        &["a", "b", "c", "a", "b"],
        &["q", "w", "e", "r", "t", "y"],
        &["z", "z", "y", "z", "x", "y", "w", "x"],
    ];
    for list in lists {
        let given = names(list);
        let mut seen: Vec<String> = Vec::new();
        for name in given.iter().rev() {
            if !seen.contains(name) {
                seen.push(name.clone());
            }
        }
        seen.truncate(3);
        assert_eq!(cap_explicit(&given), seen);
    }
}

#[test]
fn turn_names_puts_the_last_first() {
    assert_eq!(turn_names(&names(&["a", "b", "c"])), names(&["c", "b", "a"]));
    assert_eq!(turn_names(&names(&["a", "b", "a"])), names(&["a", "b", "a"]));
    assert_eq!(turn_names(&names(&[])), names(&[]));
}

#[test]
fn copy_names_copies() {
    assert_eq!(copy_names(&names(&["b", "a", "b"])), names(&["b", "a", "b"]));
}

#[test]
fn explicit_fields_are_canonicalized() {
    let mut f = survey("a");
    f.veto0 = some("  B ");
    f.want1 = some("C\n");
    let (students, warnings) = built(vec![f], population(&["a", "b", "c"]), vec![]);
    assert_eq!(one(&students, "a").vetos, names(&["b"]));
    assert_eq!(one(&students, "a").wants, names(&["c"]));
    assert!(one(&students, "a").repulsors.contains("b"));
    assert!(one(&students, "a").attractors.contains("c"));
    assert!(warnings.is_empty());
}

#[test]
fn unknown_veto_is_dropped_with_a_warning() {
    let mut f = survey("a");
    f.veto0 = some("ghost");
    f.veto1 = some("b");
    let (students, warnings) = built(vec![f], population(&["a", "b"]), vec![]);
    assert_eq!(one(&students, "a").vetos, names(&["b"]));
    assert!(!one(&students, "a").repulsors.contains("ghost"));
    assert_eq!(one(&students, "a").repulsors.to_vec(), names(&["b"]));
    assert_eq!(
        warnings,
        vec![Warning::InvalidVeto { student: "a".to_string(), handle: "ghost".to_string() }]
    );
}

#[test]
fn unknown_want_is_dropped_with_a_warning() {
    let mut f = survey("a");
    f.want2 = some("Nobody");
    let (students, warnings) = built(vec![f], population(&["a", "b"]), vec![]);
    assert!(one(&students, "a").wants.is_empty());
    assert_eq!(one(&students, "a").attractors.len(), 0);
    assert_eq!(
        warnings,
        vec![Warning::InvalidWant { student: "a".to_string(), handle: "nobody".to_string() }]
    );
}

#[test]
fn veto_warnings_come_before_want_warnings() {
    let mut f = survey("a");
    f.want0 = some("w0");
    f.veto2 = some("v2");
    f.veto0 = some("v0");
    let (_, warnings) = built(vec![f], population(&["a"]), vec![]);
    assert_eq!(
        warnings,
        vec![
            Warning::InvalidVeto { student: "a".to_string(), handle: "v0".to_string() },
            Warning::InvalidVeto { student: "a".to_string(), handle: "v2".to_string() },
            Warning::InvalidWant { student: "a".to_string(), handle: "w0".to_string() },
        ]
    );
}

#[test]
fn feedback_of_unknown_person_is_skipped_with_a_warning() {
    let mut f = survey("stranger");
    f.veto0 = some("a");
    f.solo = "Yes".to_string();
    let (students, warnings) = built(vec![f], population(&["a", "b"]), vec![]);
    assert_eq!(students.len(), 2);
    assert!(students.get("stranger").is_none());
    assert_eq!(warnings, vec![Warning::UnknownStudent { handle: "stranger".to_string() }]);
}

#[test]
fn solo_answer_yes_no_and_other() {
    let mut yes = survey("a");
    yes.solo = "Yes".to_string();
    let mut no = survey("b");
    no.solo = "No".to_string();
    let mut other = survey("c");
    other.solo = "yes".to_string();
    let (students, _) = built(vec![yes, no, other], population(&["a", "b", "c"]), vec![]);
    assert!(one(&students, "a").ok_solo);
    assert!(!one(&students, "b").ok_solo);
    assert!(!one(&students, "c").ok_solo);
}

#[test]
fn later_solo_answer_wins_and_other_answer_keeps_it() {
    let mut first = survey("a");
    first.solo = "Yes".to_string();
    let mut second = survey("a");
    second.solo = "Maybe".to_string();
    let (students, _) = built(vec![first.clone(), second], population(&["a"]), vec![]);
    assert!(one(&students, "a").ok_solo);
    let mut third = survey("a");
    third.solo = "No".to_string();
    let (students, _) = built(vec![first, third], population(&["a"]), vec![]);
    assert!(!one(&students, "a").ok_solo);
}

#[test]
fn unknown_phrase_is_an_error() {
    let mut f = survey("a");
    f.last_teammate_github_username = some("gh-b");
    f.last_teammate_feedback = some("Fantastic teammate., Smells of elderberries.");
    let r = student_matrix(vec![f, survey("b")], population(&["a", "b"]), vec![]);
    assert_eq!(
        r.err(),
        Some(BuildError::UnknownPhrase { phrase: "Smells of elderberries.".to_string() })
    );
}

#[test]
fn absent_feedback_about_a_resolved_teammate_is_an_error() {
    let mut f = survey("a");
    f.last_teammate_github_username = some("gh-b");
    let r = student_matrix(vec![f, survey("b")], population(&["a", "b"]), vec![]);
    assert_eq!(r.err(), Some(BuildError::UnknownPhrase { phrase: String::new() }));
}

#[test]
fn feedback_about_an_unresolved_teammate_is_not_read() {
    let mut f = survey("a");
    f.last_teammate_github_username = some("nobody-knows");
    f.last_teammate_feedback = some("Not in the vocabulary.");
    let (students, warnings) = built(vec![f], population(&["a", "b"]), vec![]);
    assert!(one(&students, "a").vetos.is_empty());
    assert!(warnings.is_empty());
}

#[test]
fn teammate_resolves_through_alias_table() {
    let mut f = survey("a");
    f.last_teammate_github_username = some("gh-b");
    f.last_teammate_feedback = some("Would love to work with them again.");
    let (students, warnings) = built(vec![f, survey("b")], population(&["a", "b"]), vec![]);
    assert_eq!(one(&students, "a").wants, names(&["b"]));
    assert!(one(&students, "a").attractors.contains("b"));
    assert!(one(&students, "a").vetos.is_empty());
    assert!(warnings.is_empty());
}

#[test]
fn teammate_resolves_as_handle_where_no_alias_exists() {
    let mut f = survey("a");
    f.last_teammate_github_username = some("b");
    f.last_teammate_feedback = some("Was not technically capable of pulling their weight.");
    let (students, _) = built(vec![f], population(&["a", "b"]), vec![]);
    assert_eq!(one(&students, "a").vetos, names(&["b"]));
    assert!(one(&students, "a").repulsors.contains("b"));
}

#[test]
fn alias_of_later_record_takes_precedence() {
    let mut early = survey("b");
    early.github_username = "shared".to_string();
    let mut late = survey("c");
    late.github_username = "shared".to_string();
    let mut f = survey("a");
    f.last_teammate_github_username = some("shared");
    f.last_teammate_feedback = some("Would love to work with them again.");
    let (students, _) = built(vec![f, early, late], population(&["a", "b", "c"]), vec![]);
    assert_eq!(one(&students, "a").wants, names(&["c"]));
}

#[test]
fn staged_feedback_follows_the_capped_list() {
    let mut f = survey("a");
    f.veto0 = some("x");
    f.veto1 = some("y");
    f.veto2 = some("z");
    f.last_teammate_github_username = some("gh-x");
    f.last_teammate_feedback = some("Procrastinated., Disrespectful.");
    let (students, _) =
        built(vec![f, survey("x")], population(&["a", "x", "y", "z"]), vec![rule("lazy", "lazy", ""), rule("problem", "problem", "")]);
    assert_eq!(one(&students, "a").vetos, names(&["z", "y", "x", "x", "x"]));
    assert_eq!(one(&students, "a").repulsors.to_vec(), names(&["z", "y", "x"]));
}

#[test]
fn phrases_are_trimmed_before_lookup() {
    let mut f = survey("a");
    f.last_teammate_github_username = some("gh-b");
    f.last_teammate_feedback = some("  Abusive. ,Would love to work with them again.  ");
    let (students, _) = built(vec![f, survey("b")], population(&["a", "b"]), vec![rule("problem", "none", "+")]);
    assert_eq!(one(&students, "a").vetos, names(&["b"]));
    assert_eq!(one(&students, "a").wants, names(&["b"]));
}

#[test]
fn second_record_of_a_person_caps_over_the_earlier_list() {
    let mut first = survey("a");
    first.veto0 = some("p");
    first.veto1 = some("q");
    let mut second = survey("a");
    second.veto0 = some("r");
    second.veto1 = some("s");
    let (students, _) = built(vec![first, second], population(&["a", "p", "q", "r", "s"]), vec![]);
    // after the first record: [q, p]; then [q, p, r, s] is reversed and capped
    assert_eq!(one(&students, "a").vetos, names(&["s", "r", "p"]));
}

#[test]
fn veto_repeated_in_a_later_record_is_kept() {
    let mut first = survey("a");
    first.veto0 = some("p");
    first.veto1 = some("q");
    first.veto2 = some("r");
    let mut second = survey("a");
    second.veto0 = some("r");
    second.veto1 = some("s");
    let (students, _) = built(vec![first, second], population(&["a", "p", "q", "r", "s"]), vec![]);
    // after the first record: [r, q, p]; the second makes it [r, q, p, r, s]
    assert_eq!(one(&students, "a").vetos, names(&["s", "r", "p"]));
    assert!(one(&students, "a").repulsors.contains("r"));
    assert!(!one(&students, "a").repulsors.contains("q"));
}

#[test]
fn repeated_field_counts_where_it_stands_last() {
    let mut f = survey("a");
    f.veto0 = some("x");
    f.veto1 = some("y");
    f.veto2 = some("X ");
    f.want0 = some("y");
    f.want1 = some("y");
    f.want2 = some("x");
    let (students, _) = built(vec![f], population(&["a", "x", "y"]), vec![]);
    assert_eq!(one(&students, "a").vetos, names(&["x", "y"]));
    assert_eq!(one(&students, "a").wants, names(&["x", "y"]));
}

#[test]
fn category_rule_attracts_and_repels() {
    let sc = vec![
        classified("a", Some("X")),
        classified("b", Some("Y")),
        classified("c", Some("X,Z")),
        classified("d", Some("Y")),
        classified("e", Some("Z")),
    ];
    let cr = vec![rule("X", "Y", "+"), rule("Z", "X", "-"), rule("Y", "Z", "+-")];
    let (students, warnings) = built(vec![], sc, cr);
    assert_eq!(one(&students, "a").classification_attractors.to_vec(), names(&["b", "d"]));
    assert_eq!(one(&students, "a").repulsors.len(), 0);
    assert_eq!(one(&students, "c").classification_attractors.to_vec(), names(&["b", "d"]));
    assert_eq!(one(&students, "c").repulsors.to_vec(), names(&["a", "c"]));
    assert_eq!(one(&students, "e").repulsors.to_vec(), names(&["a", "c"]));
    assert_eq!(one(&students, "b").classification_attractors.to_vec(), names(&["c", "e"]));
    assert_eq!(one(&students, "b").repulsors.to_vec(), names(&["c", "e"]));
    assert_eq!(one(&students, "a").attractors.len(), 0);
    assert!(warnings.is_empty());
}

#[test]
fn category_without_rule_gives_one_warning_per_person() {
    let sc = vec![classified("a", Some("X,Q")), classified("b", Some("Q")), classified("c", Some(""))];
    let cr = vec![rule("X", "Q", "+")];
    let (students, warnings) = built(vec![], sc, cr);
    assert_eq!(one(&students, "a").classification_attractors.to_vec(), names(&["a", "b"]));
    assert_eq!(
        warnings,
        vec![
            Warning::UnrelatedCategory { category: "Q".to_string(), student: "a".to_string() },
            Warning::UnrelatedCategory { category: "Q".to_string(), student: "b".to_string() },
        ]
    );
}

#[test]
fn rule_without_sign_makes_the_category_known() {
    let sc = vec![classified("a", Some("X")), classified("b", Some("Y"))];
    let (students, warnings) = built(vec![], sc, vec![rule("X", "Y", "?"), rule("Y", "absent", "+")]);
    assert_eq!(one(&students, "a").classification_attractors.len(), 0);
    assert_eq!(one(&students, "a").repulsors.len(), 0);
    assert_eq!(one(&students, "b").classification_attractors.len(), 0);
    assert!(warnings.is_empty());
}

#[test]
fn empty_category_text_is_no_category() {
    let sc = vec![classified("a", Some(",X,,")), classified("b", None)];
    let (_, warnings) = built(vec![], sc, vec![]);
    assert_eq!(
        warnings,
        vec![Warning::UnrelatedCategory { category: "X".to_string(), student: "a".to_string() }]
    );
}

#[test]
fn derived_category_applies_rules_again() {
    // strong people refuse lazy people; b is found lazy by a's feedback
    let sc = vec![classified("a", Some("strong")), classified("b", None), classified("c", Some("strong"))];
    let cr = vec![rule("strong", "lazy", "-"), rule("lazy", "strong", "+")];
    let mut f = survey("a");
    f.last_teammate_github_username = some("gh-b");
    f.last_teammate_feedback = some("Did not put in sufficent effort.");
    let (students, warnings) = built(vec![f, survey("b")], sc, cr);
    // the staged refusal, and the rule through the derived category
    assert_eq!(one(&students, "a").vetos, names(&["b"]));
    assert!(one(&students, "a").repulsors.contains("b"));
    assert!(one(&students, "c").repulsors.contains("b"));
    // b is now lazy, so strong people attract b
    assert_eq!(one(&students, "b").classification_attractors.to_vec(), names(&["a", "c"]));
    assert!(warnings.is_empty());
}

#[test]
fn builder_steps_can_be_run_one_by_one() {
    let mut b = Builder::new();
    let sc = vec![classified("a", Some("X")), classified("b", Some("Y"))];
    assert!(b.seed_all(&sc).is_ok());
    assert_eq!(
        b.seed(&classified("a", None)),
        Err(BuildError::DuplicateHandle { handle: "a".to_string() })
    );
    b.relate_all(&vec![rule("X", "Y", "-")]);
    let fb = vec![survey("a"), survey("b")];
    b.alias_all(&fb);
    assert_eq!(b.resolve("gh-b"), Some("b".to_string()));
    assert_eq!(b.resolve("a"), Some("a".to_string()));
    assert_eq!(b.resolve("gh-z"), None);
    let table = vocabulary_table();
    assert!(b.fuse_all(&vec![rule("X", "Y", "-")], &table, &fb).is_ok());
    b.merge_all();
    let (students, warnings) = b.finish();
    assert_eq!(one(&students, "a").repulsors.to_vec(), names(&["b"]));
    assert_eq!(
        warnings,
        vec![Warning::UnrelatedCategory { category: "Y".to_string(), student: "b".to_string() }]
    );
}

#[test]
fn hear_all_stages_wishes_and_refusals() {
    let mut b = Builder::new();
    assert!(b.seed_all(&population(&["a", "b"])).is_ok());
    let table = vocabulary_table();
    let mut vetos = Vec::new();
    let mut wants = Vec::new();
    let phrases = names(&["Would love to work with them again.", "Abusive.", "Fantastic teammate."]);
    assert!(b.hear_all(&vec![], &table, "b", &phrases, &mut vetos, &mut wants).is_ok());
    assert_eq!(vetos, names(&["b"]));
    assert_eq!(wants, names(&["b"]));
    let bad = names(&["Abusive.", "abusive."]);
    assert_eq!(
        b.hear_all(&vec![], &table, "b", &bad, &mut vetos, &mut wants),
        Err(BuildError::UnknownPhrase { phrase: "abusive.".to_string() })
    );
}

#[test]
fn vocabulary_holds_the_ten_phrases() {
    let table = vocabulary_table();
    assert_eq!(table.len(), 10);
    let expected: [(&str, Option<&str>, bool, bool); 10] = [
        ("Fantastic teammate.", Some("strong"), false, false),
        ("Would love to work with them again.", None, true, false),
        (
            "Both of us working together were greater than the sum of the individuals.",
            Some("helpful"),
            false,
            false,
        ),
        ("Was not technically capable of pulling their weight.", None, false, true),
        ("Did not have a great experience with them.", Some("watch"), false, true),
        ("Did not put in sufficent effort.", Some("lazy"), false, true),
        ("Was not sufficiently responsive.", Some("lazy"), false, true),
        ("Procrastinated.", Some("lazy"), false, true),
        ("Disrespectful.", Some("problem"), false, true),
        ("Abusive.", Some("problem"), false, true),
    ];
    for (i, (phrase, category, want, veto)) in expected.iter().enumerate() {
        assert_eq!(find_rule(&table, phrase), Some(i));
        assert_eq!(table[i].phrase, *phrase);
        assert_eq!(table[i].category.as_deref(), *category);
        assert_eq!(table[i].want, *want);
        assert_eq!(table[i].veto, *veto);
    }
    assert_eq!(find_rule(&table, ""), None);
    assert_eq!(find_rule(&table, "Abusive"), None);
    assert_eq!(find_rule(&table, "abusive."), None);
}

#[test]
fn feedback_record_canonicalizes_its_own_handles_only() {
    let mut f = survey("a");
    f.school_username = "  Alice ".to_string();
    f.github_username = "Alice-GH\n".to_string();
    f.veto0 = some(" Bob ");
    f.solo = " Yes".to_string();
    let g = f.canonicalized();
    assert_eq!(g.school_username, "alice");
    assert_eq!(g.github_username, "alice-gh");
    assert_eq!(g.veto0, some(" Bob "));
    assert_eq!(g.solo, " Yes");
    assert_eq!(g.email_addr, "a@example.edu");
    assert_eq!(g.want0, None);
}

#[test]
fn warning_and_error_messages() {
    assert_eq!(
        Warning::UnknownStudent { handle: "zed".to_string() }.message(),
        "Student feedback includes username zed which isn't represented in the classification."
    );
    assert_eq!(
        Warning::InvalidVeto { student: "a".to_string(), handle: "b".to_string() }.message(),
        "Student a provided invalid student b as veto."
    );
    assert_eq!(
        Warning::InvalidWant { student: "a".to_string(), handle: "b".to_string() }.message(),
        "Student a provided invalid student b as wanted teammate."
    );
    assert_eq!(
        Warning::UnrelatedCategory { category: "X".to_string(), student: "a".to_string() }.message(),
        "Class X specified for student a, but not in the relations csv"
    );
    assert_eq!(
        BuildError::DuplicateHandle { handle: "a".to_string() }.message(),
        "Duplicate student a in the classification."
    );
    assert_eq!(
        BuildError::UnknownPhrase { phrase: "Hm.".to_string() }.message(),
        "Unrecognized feedback phrase: Hm."
    );
}
