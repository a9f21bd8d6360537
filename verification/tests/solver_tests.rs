use team_assign::matrix::student_matrix;
use team_assign::records::{ClassificationRelations, StudentClassification, StudentFeedback};
use team_assign::groups::group_names;
use team_assign::solver::{peel, solve_with, TEAM_SIZE, TRIALS};
use team_assign::student::{Student, Students};
use team_assign::team::{score_team, validate_assignment, Team};

fn list(items: &[&str]) -> Vec<String> {
    items.iter().map(|s| s.to_string()).collect()
}

fn plain(handle: &str) -> Student {
    Student::new(format!("{}@example.edu", handle), handle.to_string(), format!("gh-{}", handle))
}

fn crowd(handles: &[&str]) -> Students {
    let mut students = Students::new();
    for h in handles {
        assert!(students.insert(plain(h)));
    }
    students
}

fn team(members: &[&str]) -> Team {
    Team { members: list(members), score: 0 }
}

fn sorted_members(teams: &[Team]) -> Vec<String> {
    let mut all: Vec<String> = teams.iter().flat_map(|t| t.members.iter().cloned()).collect();
    all.sort();
    all
}

fn refuses(students: &Students, a: &str, b: &str) -> bool {
    students.get(a).unwrap().repulsors.contains(b)
}

fn scenario() -> Students {
    let sc = ["a", "b", "c", "d"]
        .iter()
        .zip(["X", "Y", "X", "Y"].iter())
        .map(|(h, c)| StudentClassification {
            name: h.to_string(),
            school_username: h.to_string(),
            github_username: h.to_string(),
            classifications: Some(c.to_string()),
        })
        .collect();
    let fb = vec![StudentFeedback {
        email_addr: String::new(),
        school_username: "a".to_string(),
        github_username: "a".to_string(),
        solo: "No".to_string(),
        last_teammate_github_username: None,
        last_teammate_feedback: None,
        last_teammate_additional_feedback: None,
        veto0: Some("b".to_string()),
        veto1: None,
        veto2: None,
        want0: None,
        want1: None,
        want2: None,
    }];
    let cr = vec![ClassificationRelations {
        class: "X".to_string(),
        class_other: "Y".to_string(),
        relation: "+".to_string(),
    }];
    student_matrix(fb, sc, cr).unwrap().0
}

#[test]
fn new_student_has_no_preferences() {
    let s = Student::new("e".to_string(), "h".to_string(), "g".to_string());
    assert_eq!(s.email, "e");
    assert_eq!(s.school_username, "h");
    assert_eq!(s.github_username, "g");
    assert_eq!(s.attractors.len(), 0);
    assert_eq!(s.classification_attractors.len(), 0);
    assert_eq!(s.repulsors.len(), 0);
    assert!(s.wants.is_empty());
    assert!(s.vetos.is_empty());
    assert!(!s.ok_solo);
}

#[test]
fn new_team_is_empty_with_score_zero() {
    let t = Team::new();
    assert!(t.members.is_empty());
    assert_eq!(t.score, 0);
}

#[test]
fn from_people_keeps_the_first_of_each_handle() {
    let mut second = plain("a");
    second.ok_solo = true;
    let students = Students::from_people(vec![plain("a"), plain("b"), second, plain("c")]);
    assert_eq!(students.handle_list(), list(&["a", "b", "c"]));
    assert!(!students.get("a").unwrap().ok_solo);
    assert_eq!(Students::from_people(vec![]).len(), 0);
}

#[test]
fn students_refuse_a_second_person_with_the_same_handle() {
    let mut students = crowd(&["a", "b"]);
    let mut again = plain("a");
    again.ok_solo = true;
    assert!(!students.insert(again));
    assert_eq!(students.len(), 2);
    assert!(!students.get("a").unwrap().ok_solo);
    assert_eq!(students.find("b"), Some(1));
    assert_eq!(students.find("c"), None);
    assert!(students.contains_key("a"));
    assert!(!students.contains_key("A"));
    assert_eq!(students.handle_list(), list(&["a", "b"]));
}

#[test]
fn explicit_attractor_scores_three_in_each_direction() {
    let mut students = Students::new();
    let mut a = plain("a");
    a.attractors.insert("b");
    let mut b = plain("b");
    b.attractors.insert("a");
    students.insert(a);
    students.insert(b);
    students.insert(plain("c"));
    assert_eq!(score_team(&students, &list(&["a", "b"])), Some(6));
    assert_eq!(score_team(&students, &list(&["a", "c"])), Some(0));
    assert_eq!(score_team(&students, &list(&["c", "b"])), Some(0));
    assert_eq!(score_team(&students, &list(&["a", "b", "c"])), Some(6));
    assert_eq!(score_team(&students, &list(&[])), Some(0));
    assert_eq!(score_team(&students, &list(&["a"])), Some(0));
}

#[test]
fn explicit_attractor_takes_precedence_over_category() {
    let mut students = Students::new();
    let mut a = plain("a");
    a.attractors.insert("b");
    a.classification_attractors.insert("b");
    a.classification_attractors.insert("c");
    students.insert(a);
    students.insert(plain("b"));
    students.insert(plain("c"));
    assert_eq!(score_team(&students, &list(&["a", "b"])), Some(3));
    assert_eq!(score_team(&students, &list(&["a", "c"])), Some(1));
    assert_eq!(score_team(&students, &list(&["a", "b", "c"])), Some(4));
}

#[test]
fn a_person_does_not_score_with_themselves() {
    let mut students = Students::new();
    let mut a = plain("a");
    a.attractors.insert("a");
    a.repulsors.insert("a");
    students.insert(a);
    assert_eq!(score_team(&students, &list(&["a"])), Some(0));
    assert_eq!(score_team(&students, &list(&["a", "a"])), Some(0));
}

#[test]
fn refusal_in_either_direction_makes_a_team_invalid() {
    let mut students = Students::new();
    let mut a = plain("a");
    a.repulsors.insert("b");
    a.attractors.insert("b");
    students.insert(a);
    students.insert(plain("b"));
    students.insert(plain("c"));
    assert_eq!(score_team(&students, &list(&["a", "b"])), None);
    assert_eq!(score_team(&students, &list(&["b", "a"])), None);
    assert_eq!(score_team(&students, &list(&["c", "b", "a"])), None);
    assert_eq!(score_team(&students, &list(&["a", "c"])), Some(0));
}

#[test]
fn validate_assignment_sets_scores_and_returns_the_sum() {
    let mut students = Students::new();
    let mut a = plain("a");
    a.attractors.insert("b");
    let mut c = plain("c");
    c.classification_attractors.insert("d");
    let mut d = plain("d");
    d.attractors.insert("c");
    students.insert(a);
    students.insert(plain("b"));
    students.insert(c);
    students.insert(d);
    let mut assignment = vec![team(&["a", "b"]), team(&["c", "d"]), Team::new()];
    assignment[2].score = 99;
    assert_eq!(validate_assignment(&students, &mut assignment), Some(7));
    assert_eq!(assignment[0].score, 3);
    assert_eq!(assignment[1].score, 4);
    assert_eq!(assignment[2].score, 0);
    assert_eq!(assignment[0].members, list(&["a", "b"]));
    assert_eq!(assignment[1].members, list(&["c", "d"]));
}

#[test]
fn validate_assignment_leaves_an_invalid_assignment_alone() {
    let mut students = Students::new();
    let mut a = plain("a");
    a.attractors.insert("b");
    let mut d = plain("d");
    d.repulsors.insert("c");
    students.insert(a);
    students.insert(plain("b"));
    students.insert(plain("c"));
    students.insert(d);
    let mut assignment = vec![team(&["a", "b"]), team(&["c", "d"])];
    assignment[0].score = 11;
    assignment[1].score = 12;
    assert_eq!(validate_assignment(&students, &mut assignment), None);
    assert_eq!(assignment[0].score, 11);
    assert_eq!(assignment[1].score, 12);
    assert_eq!(assignment[1].members, list(&["c", "d"]));
}

#[test]
fn validate_assignment_of_nothing_is_zero() {
    let students = crowd(&["a"]);
    let mut assignment: Vec<Team> = Vec::new();
    assert_eq!(validate_assignment(&students, &mut assignment), Some(0));
}

#[test]
fn without_relations_and_wishes_every_partition_scores_zero() {
    let students = crowd(&["a", "b", "c", "d", "e", "f"]);
    let mut one = vec![team(&["a", "b"]), team(&["c", "d"]), team(&["e", "f"])];
    let mut two = vec![team(&["f", "a"]), team(&["e", "b"]), team(&["d", "c"])];
    let mut three = vec![team(&["a", "b", "c"]), team(&["d", "e", "f"])];
    assert_eq!(validate_assignment(&students, &mut one), Some(0));
    assert_eq!(validate_assignment(&students, &mut two), Some(0));
    assert_eq!(validate_assignment(&students, &mut three), Some(0));
    let found = solve_with(&students, 2, 20, 5).expect("every partition is valid");
    assert_eq!(found.len(), 3);
    assert!(found.iter().all(|t| t.score == 0 && t.members.len() == 2));
}

#[test]
fn scenario_scores_follow_the_category_rule() {
    let students = scenario();
    assert!(refuses(&students, "a", "b"));
    assert_eq!(score_team(&students, &list(&["a", "b"])), None);
    assert_eq!(score_team(&students, &list(&["b", "a"])), None);
    assert_eq!(score_team(&students, &list(&["a", "d"])), Some(1));
    assert_eq!(score_team(&students, &list(&["c", "b"])), Some(1));
    assert_eq!(score_team(&students, &list(&["c", "d"])), Some(1));
    assert_eq!(score_team(&students, &list(&["a", "c"])), Some(0));
    assert_eq!(score_team(&students, &list(&["b", "d"])), Some(0));
}

#[test]
fn scenario_is_solved_without_the_refused_pair() {
    let students = scenario();
    for seed in 0..20u64 {
        let teams = solve_with(&students, 2, 40, seed).expect("a valid partition exists");
        assert_eq!(teams.len(), 2);
        assert_eq!(sorted_members(&teams), list(&["a", "b", "c", "d"]));
        for t in &teams {
            assert_eq!(t.members.len(), 2);
            assert!(!(t.members.contains(&"a".to_string()) && t.members.contains(&"b".to_string())));
        }
        // the best partition pairs a with d and c with b
        assert_eq!(teams.iter().map(|t| t.score).sum::<usize>(), 2);
        assert!(teams.iter().all(|t| t.score == 1));
    }
}

#[test]
fn same_seed_gives_the_same_assignment() {
    let mut students = Students::new();
    for (i, h) in ["a", "b", "c", "d", "e", "f", "g", "h", "i"].iter().enumerate() {
        let mut s = plain(h);
        s.ok_solo = i % 4 == 0;
        if i % 3 == 0 {
            s.attractors.insert("b");
        }
        students.insert(s);
    }
    let first = solve_with(&students, 2, 50, 1234).expect("valid");
    let second = solve_with(&students, 2, 50, 1234).expect("valid");
    assert_eq!(first.len(), second.len());
    for (x, y) in first.iter().zip(second.iter()) {
        assert_eq!(x.members, y.members);
        assert_eq!(x.score, y.score);
    }
}

#[test]
fn shuffling_changes_the_order_of_the_population() {
    let handles: Vec<String> = (0..24).map(|i| format!("p{:02}", i)).collect();
    let mut students = Students::new();
    for h in &handles {
        students.insert(plain(h));
    }
    let teams = solve_with(&students, 2, 1, 99).expect("valid");
    let order: Vec<String> = teams.iter().flat_map(|t| t.members.iter().cloned()).collect();
    assert_ne!(order, handles);
    assert_eq!(sorted_members(&teams), handles);
    let other = solve_with(&students, 2, 1, 100).expect("valid");
    let other_order: Vec<String> = other.iter().flat_map(|t| t.members.iter().cloned()).collect();
    assert_ne!(order, other_order);
}

#[test]
fn odd_population_sets_one_solo_person_aside() {
    let mut students = Students::new();
    for h in ["a", "b", "c", "d", "e"] {
        let mut s = plain(h);
        s.ok_solo = h == "c" || h == "e";
        students.insert(s);
    }
    for seed in 0..10u64 {
        let teams = solve_with(&students, 2, 10, seed).expect("valid");
        assert_eq!(teams.len(), 3);
        assert_eq!(teams[0].members.len(), 2);
        assert_eq!(teams[1].members.len(), 2);
        assert_eq!(teams[2].members.len(), 1);
        assert_eq!(teams[2].score, 0);
        assert!(teams[2].members[0] == "c" || teams[2].members[0] == "e");
        assert_eq!(sorted_members(&teams), list(&["a", "b", "c", "d", "e"]));
    }
}

#[test]
fn straggler_count_is_population_modulo_team_size() {
    let mut students = Students::new();
    for i in 0..11 {
        let mut s = plain(&format!("s{:02}", i));
        s.ok_solo = true;
        students.insert(s);
    }
    let teams = solve_with(&students, 4, 5, 3).expect("valid");
    // 11 = 2 * 4 + 3
    assert_eq!(teams.len(), 5);
    assert_eq!(teams.iter().filter(|t| t.members.len() == 4).count(), 2);
    assert_eq!(teams.iter().filter(|t| t.members.len() == 1).count(), 3);
    assert_eq!(teams[0].members.len(), 4);
    assert_eq!(teams[1].members.len(), 4);
    assert_eq!(sorted_members(&teams).len(), 11);
    let mut unique = sorted_members(&teams);
    unique.dedup();
    assert_eq!(unique.len(), 11);
}

#[test]
fn too_few_solo_people_leave_a_smaller_last_team() {
    let students = crowd(&["a", "b", "c", "d", "e"]);
    let teams = solve_with(&students, 2, 10, 8).expect("valid");
    assert_eq!(teams.len(), 3);
    assert_eq!(teams[0].members.len(), 2);
    assert_eq!(teams[1].members.len(), 2);
    assert_eq!(teams[2].members.len(), 1);
    assert_eq!(sorted_members(&teams), list(&["a", "b", "c", "d", "e"]));
}

#[test]
fn no_assignment_where_every_partition_is_refused() {
    let mut students = Students::new();
    let mut a = plain("a");
    a.repulsors.insert("b");
    students.insert(a);
    students.insert(plain("b"));
    assert!(solve_with(&students, 2, 30, 0).is_none());
}

#[test]
fn no_assignment_without_trials() {
    let students = crowd(&["a", "b"]);
    assert!(solve_with(&students, 2, 0, 0).is_none());
}

#[test]
fn empty_population_is_assigned_to_no_teams() {
    let students = Students::new();
    let teams = solve_with(&students, 2, 3, 0).expect("the empty partition is valid");
    assert!(teams.is_empty());
}

#[test]
fn returned_teams_respect_every_refusal() {
    let handles = ["a", "b", "c", "d", "e", "f", "g", "h"];
    let mut students = Students::new();
    for (i, h) in handles.iter().enumerate() {
        let mut s = plain(h);
        s.repulsors.insert(handles[(i + 1) % handles.len()]);
        s.attractors.insert(handles[(i + 3) % handles.len()]);
        students.insert(s);
    }
    for seed in 0..5u64 {
        let teams = solve_with(&students, 2, 400, seed).expect("a valid partition exists");
        assert_eq!(sorted_members(&teams), list(&handles));
        let mut total = 0;
        for t in &teams {
            assert_eq!(t.members.len(), 2);
            let (x, y) = (&t.members[0], &t.members[1]);
            assert!(!refuses(&students, x, y));
            assert!(!refuses(&students, y, x));
            assert_eq!(score_team(&students, &t.members), Some(t.score));
            total += t.score;
        }
        assert!(total <= 3 * 8);
    }
}

#[test]
fn more_trials_never_lower_the_score() {
    let handles = ["a", "b", "c", "d", "e", "f"];
    let mut students = Students::new();
    for (i, h) in handles.iter().enumerate() {
        let mut s = plain(h);
        s.attractors.insert(handles[(i + 2) % handles.len()]);
        students.insert(s);
    }
    let mut last = 0;
    for trials in [1usize, 2, 5, 20, 100] {
        let teams = solve_with(&students, 2, trials, 77).expect("valid");
        let total: usize = teams.iter().map(|t| t.score).sum();
        assert!(total >= last);
        last = total;
    }
}

#[test]
fn group_names_cuts_consecutive_teams() {
    let teams = group_names(&list(&["a", "b", "c", "d", "e"]), 2);
    assert_eq!(teams.len(), 3);
    assert_eq!(teams[0].members, list(&["a", "b"]));
    assert_eq!(teams[1].members, list(&["c", "d"]));
    assert_eq!(teams[2].members, list(&["e"]));
    assert!(teams.iter().all(|t| t.score == 0));
    assert!(group_names(&list(&[]), 3).is_empty());
    let whole = group_names(&list(&["a", "b"]), 5);
    assert_eq!(whole.len(), 1);
    assert_eq!(whole[0].members, list(&["a", "b"]));
    let singles = group_names(&list(&["a", "b"]), 1);
    assert_eq!(singles.len(), 2);
}

#[test]
fn peel_is_first_fit() {
    let mut students = Students::new();
    for h in ["a", "b", "c", "d", "e"] {
        let mut s = plain(h);
        s.ok_solo = h != "a" && h != "d";
        students.insert(s);
    }
    let order = list(&["a", "b", "c", "d", "e"]);
    let (solos, pool) = peel(&students, &order, 2);
    assert_eq!(solos, list(&["b", "c"]));
    assert_eq!(pool, list(&["a", "d", "e"]));
    let (solos, pool) = peel(&students, &order, 0);
    assert!(solos.is_empty());
    assert_eq!(pool, order);
    let (solos, pool) = peel(&students, &list(&["e", "zed", "a"]), 5);
    assert_eq!(solos, list(&["e"]));
    assert_eq!(pool, list(&["zed", "a"]));
}

#[test]
fn constants_of_solve() {
    assert_eq!(TEAM_SIZE, 2);
    assert_eq!(TRIALS, 1 << 20);
}

#[test]
fn team_name_joins_members_with_underscores() {
    assert_eq!(Team::new().name(), "team");
    assert_eq!(team(&["a"]).name(), "team_a");
    assert_eq!(team(&["alice", "bob", "c"]).name(), "team_alice_bob_c");
}

#[test]
fn ties_keep_the_earlier_assignment() {
    let students = crowd(&["a", "b", "c", "d", "e", "f"]);
    for seed in [0u64, 1, 2, 3] {
        let first = solve_with(&students, 2, 1, seed).expect("valid");
        let later = solve_with(&students, 2, 60, seed).expect("valid");
        let a: Vec<&Vec<String>> = first.iter().map(|t| &t.members).collect();
        let b: Vec<&Vec<String>> = later.iter().map(|t| &t.members).collect();
        assert_eq!(a, b);
    }
}

#[test]
fn crate_root_offers_the_main_items() {
    let students: team_assign::Students = crowd(&["a", "b"]);
    let mut assignment: team_assign::StudentAssignment = vec![team(&["a", "b"])];
    assert_eq!(team_assign::validate_assignment(&students, &mut assignment), Some(0));
    assert!(team_assign::solve_with(&students, 2, 2, 1).is_some());
    assert!(team_assign::student_matrix(vec![], vec![], vec![]).is_ok());
}

#[test]
fn a_member_outside_the_population_has_no_preferences() {
    let mut students = Students::new();
    let mut a = plain("a");
    a.attractors.insert("zed");
    students.insert(a);
    assert_eq!(score_team(&students, &list(&["zed", "a"])), Some(3));
    assert_eq!(score_team(&students, &list(&["zed", "yan"])), Some(0));
    let mut assignment = vec![team(&["a", "zed"]), team(&["yan"])];
    assert_eq!(validate_assignment(&students, &mut assignment), Some(3));
    assert_eq!(assignment[0].score, 3);
    assert_eq!(assignment[1].score, 0);
}

#[test]
fn empty_sets_give_score_zero_whatever_the_teams_carried() {
    let students = crowd(&["a", "b", "c", "d", "e"]);
    let mut assignment = vec![team(&["e", "a", "c"]), team(&["b"]), team(&["d", "d"])];
    assignment[0].score = 7;
    assignment[1].score = usize::MAX;
    assignment[2].score = 1;
    assert_eq!(validate_assignment(&students, &mut assignment), Some(0));
    assert!(assignment.iter().all(|t| t.score == 0));
}

#[test]
fn a_long_team_is_scored_without_a_bound_on_its_size() {
    let mut students = Students::new();
    let mut a = plain("a");
    a.attractors.insert("b");
    students.insert(a);
    students.insert(plain("b"));
    let mut members = vec!["a".to_string()];
    members.extend(std::iter::repeat("b".to_string()).take(200));
    assert_eq!(score_team(&students, &members), Some(600));
}
