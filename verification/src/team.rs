//! Teams, and the judgement of an assignment: whether every team respects
//! the refusals of its members, and how well its members like one another.

use crate::names::{lemma_first_index, Name};
use crate::student::{handles, person, Student, StudentModel, Students};
use crate::text::views;
use vstd::prelude::*;
use vstd::string::StringExecFns;

verus! {

/// A team: its members in order, and its score.
#[derive(Debug, Clone)]
pub struct Team {
    pub members: Vec<String>,
    pub score: usize,
}

/// A `Team` as plain mathematical values.
pub struct TeamModel {
    pub members: Seq<Name>,
    pub score: nat,
}

impl View for Team {
    type V = TeamModel;

    open spec fn view(&self) -> TeamModel {
        TeamModel { members: views(self.members@), score: self.score as nat }
    }
}

/// The name of a team: `team`, then each member after an underscore.
pub open spec fn team_name(members: Seq<Name>) -> Seq<char>
    decreases members.len(),
{
    if members.len() == 0 {
        "team"@
    } else {
        team_name(members.drop_last()) + "_"@ + members.last()
    }
}

impl Team {
    /// A team without members, with score 0.
    pub fn new() -> (r: Self)
        ensures
            r@ == (TeamModel { members: Seq::empty(), score: 0 }),
    {
        let r = Team { members: Vec::new(), score: 0 };
        assert(views(r.members@) =~= Seq::<Name>::empty());
        r
    }

    /// The name of the team: `team`, then each member after an underscore.
    pub fn name(&self) -> (r: String)
        ensures
            r@ == team_name(self@.members),
    {
        let ghost all = views(self.members@);
        let mut out = String::from_str("team");
        let mut i: usize = 0;
        while i < self.members.len()
            invariant
                i <= self.members.len(),
                all == views(self.members@),
                out@ == team_name(all.take(i as int)),
            decreases self.members.len() - i,
        {
            proof {
                assert(all.take(i + 1).drop_last() =~= all.take(i as int));
                assert(all.take(i + 1).last() == all[i as int]);
            }
            out.append("_");
            out.append(self.members[i].as_str());
            i = i + 1;
        }
        proof {
            assert(all.take(i as int) =~= all);
        }
        out
    }
}

/// An assignment: teams in order.
pub type StudentAssignment = Vec<Team>;

/// The models of a sequence of teams.
pub open spec fn team_models(teams: Seq<Team>) -> Seq<TeamModel> {
    Seq::new(teams.len(), |t: int| teams[t]@)
}

/// The member lists of a sequence of teams.
pub open spec fn member_lists(teams: Seq<Team>) -> Seq<Seq<Name>> {
    Seq::new(teams.len(), |t: int| views(teams[t].members@))
}

/// Whether `a` refuses to be teamed with another person `b`. Somebody who is
/// not in the population refuses nobody.
pub open spec fn repels(people: Seq<StudentModel>, a: Name, b: Name) -> bool {
    a != b && match person(people, a) {
        Some(p) => p.repulsors.contains(b),
        None => false,
    }
}

/// How much one person likes being teamed with `b`: 3 for an explicit
/// attractor, else 1 for one that the person's categories attract, else 0.
pub open spec fn liking_of(p: StudentModel, b: Name) -> nat {
    if p.attractors.contains(b) {
        3
    } else if p.classification_attractors.contains(b) {
        1
    } else {
        0
    }
}

/// How much `a` likes being teamed with another person `b`. Somebody who is
/// not in the population likes nobody.
pub open spec fn liking(people: Seq<StudentModel>, a: Name, b: Name) -> nat {
    if a == b {
        0
    } else {
        match person(people, a) {
            Some(p) => liking_of(p, b),
            None => 0,
        }
    }
}

/// How much `a` likes being teamed with all of `others`.
pub open spec fn row_score(people: Seq<StudentModel>, a: Name, others: Seq<Name>) -> nat
    decreases others.len(),
{
    if others.len() == 0 {
        0
    } else {
        row_score(people, a, others.drop_last()) + liking(people, a, others.last())
    }
}

/// How much all of `rows` like being teamed with all of `members`.
pub open spec fn rows_score(people: Seq<StudentModel>, rows: Seq<Name>, members: Seq<Name>) -> nat
    decreases rows.len(),
{
    if rows.len() == 0 {
        0
    } else {
        rows_score(people, rows.drop_last(), members) + row_score(people, rows.last(), members)
    }
}

/// The score of a team: the liking of every member for every other member.
pub open spec fn team_score(people: Seq<StudentModel>, members: Seq<Name>) -> nat {
    rows_score(people, members, members)
}

/// The score of an assignment: the sum of the scores of its teams.
pub open spec fn total_score(people: Seq<StudentModel>, teams: Seq<Seq<Name>>) -> nat
    decreases teams.len(),
{
    if teams.len() == 0 {
        0
    } else {
        total_score(people, teams.drop_last()) + team_score(people, teams.last())
    }
}

/// Whether `a` refuses none of `others`.
pub open spec fn row_valid(people: Seq<StudentModel>, a: Name, others: Seq<Name>) -> bool {
    forall|j: int| 0 <= j < others.len() ==> !repels(people, a, #[trigger] others[j])
}

/// Whether no member of the team refuses another member.
pub open spec fn team_valid(people: Seq<StudentModel>, members: Seq<Name>) -> bool {
    forall|i: int| 0 <= i < members.len() ==> row_valid(people, #[trigger] members[i], members)
}

/// Whether every team of the assignment is valid.
pub open spec fn all_valid(people: Seq<StudentModel>, teams: Seq<Seq<Name>>) -> bool {
    forall|t: int| 0 <= t < teams.len() ==> team_valid(people, #[trigger] teams[t])
}

/// The highest score that teams of these sizes can reach.
pub open spec fn score_bound(teams: Seq<Seq<Name>>) -> nat
    decreases teams.len(),
{
    if teams.len() == 0 {
        0
    } else {
        score_bound(teams.drop_last()) + 3 * teams.last().len() * teams.last().len()
    }
}

/// The teams `teams`, each with its score.
pub open spec fn scored(people: Seq<StudentModel>, teams: Seq<Seq<Name>>) -> Seq<TeamModel> {
    Seq::new(
        teams.len(),
        |t: int| TeamModel { members: teams[t], score: team_score(people, teams[t]) },
    )
}

/// A person's liking for all of `others` is at most 3 for each of them.
pub proof fn lemma_row_score_bound(people: Seq<StudentModel>, a: Name, others: Seq<Name>)
    ensures
        row_score(people, a, others) <= 3 * others.len(),
    decreases others.len(),
{
    if others.len() > 0 {
        lemma_row_score_bound(people, a, others.drop_last());
    }
}

/// The liking of `rows` for `members` is at most 3 for each pair.
pub proof fn lemma_rows_score_bound(people: Seq<StudentModel>, rows: Seq<Name>, members: Seq<Name>)
    ensures
        rows_score(people, rows, members) <= 3 * rows.len() * members.len(),
    decreases rows.len(),
{
    if rows.len() > 0 {
        lemma_rows_score_bound(people, rows.drop_last(), members);
        lemma_row_score_bound(people, rows.last(), members);
        assert(3 * (rows.len() - 1) * members.len() + 3 * members.len() == 3 * rows.len()
            * members.len()) by (nonlinear_arith);
    }
}

/// The score of an assignment is within the bound of its team sizes, and so
/// is the score of each team.
pub proof fn lemma_total_score_bound(people: Seq<StudentModel>, teams: Seq<Seq<Name>>)
    ensures
        total_score(people, teams) <= score_bound(teams),
        forall|t: int|
            0 <= t < teams.len() ==> 3 * (#[trigger] teams[t]).len() * teams[t].len()
                <= score_bound(teams),
    decreases teams.len(),
{
    if teams.len() > 0 {
        lemma_total_score_bound(people, teams.drop_last());
        lemma_rows_score_bound(people, teams.last(), teams.last());
        assert forall|t: int| 0 <= t < teams.len() implies 3 * (#[trigger] teams[t]).len()
            * teams[t].len() <= score_bound(teams) by {
            if t < teams.len() - 1 {
                assert(teams.drop_last()[t] == teams[t]);
            }
        }
    }
}

/// Where nobody has an attractor of either kind, nobody likes anybody:
/// every team scores 0, and so does every assignment.
pub proof fn lemma_no_attractors_score_zero(people: Seq<StudentModel>, teams: Seq<Seq<Name>>)
    requires
        forall|i: int|
            0 <= i < people.len() ==> (#[trigger] people[i]).attractors.len() == 0
                && people[i].classification_attractors.len() == 0,
    ensures
        total_score(people, teams) == 0,
        forall|t: int| 0 <= t < teams.len() ==> team_score(people, #[trigger] teams[t]) == 0,
    decreases teams.len(),
{
    if teams.len() > 0 {
        lemma_no_attractors_score_zero(people, teams.drop_last());
        lemma_no_attractors_rows(people, teams.last(), teams.last());
        assert forall|t: int| 0 <= t < teams.len() implies team_score(people, #[trigger] teams[t])
            == 0 by {
            if t < teams.len() - 1 {
                assert(teams.drop_last()[t] == teams[t]);
            }
        }
    }
}

/// Where nobody has an attractor of either kind, no row scores.
pub proof fn lemma_no_attractors_rows(people: Seq<StudentModel>, rows: Seq<Name>, members: Seq<Name>)
    requires
        forall|i: int|
            0 <= i < people.len() ==> (#[trigger] people[i]).attractors.len() == 0
                && people[i].classification_attractors.len() == 0,
    ensures
        rows_score(people, rows, members) == 0,
    decreases rows.len(),
{
    if rows.len() > 0 {
        lemma_no_attractors_rows(people, rows.drop_last(), members);
        lemma_no_attractors_row(people, rows.last(), members);
    }
}

/// Where nobody has an attractor of either kind, nobody likes anybody.
pub proof fn lemma_no_attractors_row(people: Seq<StudentModel>, a: Name, others: Seq<Name>)
    requires
        forall|i: int|
            0 <= i < people.len() ==> (#[trigger] people[i]).attractors.len() == 0
                && people[i].classification_attractors.len() == 0,
    ensures
        row_score(people, a, others) == 0,
    decreases others.len(),
{
    if others.len() > 0 {
        lemma_no_attractors_row(people, a, others.drop_last());
        lemma_first_index(handles(people), a);
    }
}

/// Where nobody refuses anybody, every assignment is valid.
pub proof fn lemma_no_repulsors_valid(people: Seq<StudentModel>, teams: Seq<Seq<Name>>)
    requires
        forall|i: int| 0 <= i < people.len() ==> (#[trigger] people[i]).repulsors.len() == 0,
    ensures
        all_valid(people, teams),
{
    assert forall|t: int| 0 <= t < teams.len() implies team_valid(people, #[trigger] teams[t]) by {
        assert forall|i: int| 0 <= i < teams[t].len() implies row_valid(
            people,
            #[trigger] teams[t][i],
            teams[t],
        ) by {
            lemma_first_index(handles(people), teams[t][i]);
        }
    }
}

/// In a valid assignment no member of a team is a repulsor of another
/// member of that team, in either direction.
pub proof fn lemma_valid_is_mutual(people: Seq<StudentModel>, teams: Seq<Seq<Name>>, t: int, i: int, j: int)
    requires
        all_valid(people, teams),
        0 <= t < teams.len(),
        0 <= i < teams[t].len(),
        0 <= j < teams[t].len(),
        teams[t][i] != teams[t][j],
    ensures
        person(people, teams[t][i]) matches Some(p) ==> !p.repulsors.contains(teams[t][j]),
        person(people, teams[t][j]) matches Some(q) ==> !q.repulsors.contains(teams[t][i]),
{
    assert(team_valid(people, teams[t]));
    assert(row_valid(people, teams[t][i], teams[t]));
    assert(row_valid(people, teams[t][j], teams[t]));
    assert(!repels(people, teams[t][i], teams[t][j]));
    assert(!repels(people, teams[t][j], teams[t][i]));
}

/// Whether member `i` of team `t` has member `j`, who is somebody else,
/// among the repulsors.
pub open spec fn refuses_at(
    people: Seq<StudentModel>,
    teams: Seq<Seq<Name>>,
    t: int,
    i: int,
    j: int,
) -> bool {
    &&& 0 <= t < teams.len()
    &&& 0 <= i < teams[t].len()
    &&& 0 <= j < teams[t].len()
    &&& teams[t][i] != teams[t][j]
    &&& match person(people, teams[t][i]) {
        Some(p) => p.repulsors.contains(teams[t][j]),
        None => false,
    }
}

/// An assignment is invalid exactly where some team has two different
/// members of whom the first has the second among the repulsors.
pub proof fn lemma_invalid_iff_refusal(people: Seq<StudentModel>, teams: Seq<Seq<Name>>)
    ensures
        !all_valid(people, teams) <==> exists|t: int, i: int, j: int| #[trigger]
            refuses_at(people, teams, t, i, j),
{
    if !all_valid(people, teams) {
        let t = choose|t: int| 0 <= t < teams.len() && !team_valid(people, #[trigger] teams[t]);
        let i = choose|i: int|
            0 <= i < teams[t].len() && !row_valid(people, #[trigger] teams[t][i], teams[t]);
        let j = choose|j: int|
            0 <= j < teams[t].len() && repels(people, teams[t][i], #[trigger] teams[t][j]);
        assert(refuses_at(people, teams, t, i, j));
    }
    if exists|t: int, i: int, j: int| #[trigger] refuses_at(people, teams, t, i, j) {
        let (t, i, j) = choose|t: int, i: int, j: int| #[trigger]
            refuses_at(people, teams, t, i, j);
        assert(repels(people, teams[t][i], teams[t][j]));
        assert(!row_valid(people, teams[t][i], teams[t]));
        assert(!team_valid(people, teams[t]));
    }
}

/// Where every set of every person is empty, every assignment is valid,
/// its score is 0, and every team of it gets score 0.
pub proof fn lemma_empty_sets_judged(people: Seq<StudentModel>, teams: Seq<Seq<Name>>)
    requires
        forall|i: int|
            0 <= i < people.len() ==> (#[trigger] people[i]).attractors.len() == 0
                && people[i].classification_attractors.len() == 0 && people[i].repulsors.len()
                == 0,
    ensures
        all_valid(people, teams),
        total_score(people, teams) == 0,
        forall|t: int| 0 <= t < teams.len() ==> (#[trigger] scored(people, teams)[t]).score == 0,
{
    lemma_no_repulsors_valid(people, teams);
    lemma_no_attractors_score_zero(people, teams);
}

/// The score of each team is within the score of the assignment.
pub proof fn lemma_team_within_total(people: Seq<StudentModel>, teams: Seq<Seq<Name>>, t: int)
    requires
        0 <= t < teams.len(),
    ensures
        team_score(people, teams[t]) <= total_score(people, teams),
    decreases teams.len(),
{
    if t < teams.len() - 1 {
        lemma_team_within_total(people, teams.drop_last(), t);
        assert(teams.drop_last()[t] == teams[t]);
    }
}

/// Somebody who is not in the population refuses and likes nobody.
pub proof fn lemma_stranger_row(people: Seq<StudentModel>, a: Name, others: Seq<Name>)
    requires
        person(people, a).is_none(),
    ensures
        row_valid(people, a, others),
        row_score(people, a, others) == 0,
    decreases others.len(),
{
    if others.len() > 0 {
        lemma_stranger_row(people, a, others.drop_last());
    }
}

/// How much `s` likes being teamed with `other`.
fn liking_for(s: &Student, other: &str) -> (r: usize)
    ensures
        r == liking_of(s@, other@),
{
    if s.attractors.contains(other) {
        3
    } else if s.classification_attractors.contains(other) {
        1
    } else {
        0
    }
}

/// Whether the running sum `t` stands for the number `exact`: it holds the
/// number, or nothing where the number is no `usize`.
pub open spec fn stands_for(t: Option<usize>, exact: nat) -> bool {
    match t {
        Some(x) => x == exact,
        None => exact > usize::MAX,
    }
}

/// The running sum of what `t` and `more` stand for.
fn add_up(t: Option<usize>, more: Option<usize>, Ghost(a): Ghost<nat>, Ghost(b): Ghost<nat>) -> (r:
    Option<usize>)
    requires
        stands_for(t, a),
        stands_for(more, b),
    ensures
        stands_for(r, a + b),
{
    match t {
        Some(x) => match more {
            Some(y) => x.checked_add(y),
            None => None,
        },
        None => None,
    }
}

/// How much member `i` likes the other members, as a running sum, unless it
/// refuses one of them.
fn score_row(students: &Students, members: &Vec<String>, i: usize) -> (r: Option<Option<usize>>)
    requires
        i < members.len(),
    ensures
        match r {
            Some(t) => row_valid(students@, members@[i as int]@, views(members@)) && stands_for(
                t,
                row_score(students@, members@[i as int]@, views(members@)),
            ),
            None => !row_valid(students@, members@[i as int]@, views(members@)),
        },
{
    let ghost people = students@;
    let ghost a = members@[i as int]@;
    let ghost others = views(members@);
    let s = match students.get(members[i].as_str()) {
        Some(s) => s,
        None => {
            proof {
                lemma_stranger_row(people, a, others);
            }
            return Some(Some(0));
        },
    };
    let mut sum: Option<usize> = Some(0);
    let mut j: usize = 0;
    while j < members.len()
        invariant
            j <= members.len(),
            i < members.len(),
            people == students@,
            a == members@[i as int]@,
            others == views(members@),
            person(people, a) == Some(s@),
            stands_for(sum, row_score(people, a, others.take(j as int))),
            forall|k: int| 0 <= k < j ==> !repels(people, a, #[trigger] others[k]),
        decreases members.len() - j,
    {
        proof {
            assert(others.take(j + 1).drop_last() =~= others.take(j as int));
            assert(others.take(j + 1).last() == others[j as int]);
        }
        if members[i] != members[j] {
            if s.repulsors.contains(members[j].as_str()) {
                assert(repels(people, a, others[j as int]));
                return None;
            }
            let like = liking_for(s, members[j].as_str());
            sum = add_up(
                sum,
                Some(like),
                Ghost(row_score(people, a, others.take(j as int))),
                Ghost(like as nat),
            );
        }
        j = j + 1;
    }
    proof {
        assert(others.take(j as int) =~= others);
    }
    Some(sum)
}

/// The score of the team, as a running sum, unless a member refuses
/// another member.
fn tally_team(students: &Students, members: &Vec<String>) -> (r: Option<Option<usize>>)
    ensures
        match r {
            Some(t) => team_valid(students@, views(members@)) && stands_for(
                t,
                team_score(students@, views(members@)),
            ),
            None => !team_valid(students@, views(members@)),
        },
{
    let ghost people = students@;
    let ghost all = views(members@);
    let m = members.len();
    let mut sum: Option<usize> = Some(0);
    let mut i: usize = 0;
    while i < m
        invariant
            i <= m,
            m == members.len(),
            people == students@,
            all == views(members@),
            stands_for(sum, rows_score(people, all.take(i as int), all)),
            forall|k: int| 0 <= k < i ==> row_valid(people, #[trigger] all[k], all),
        decreases m - i,
    {
        proof {
            assert(all.take(i + 1).drop_last() =~= all.take(i as int));
            assert(all.take(i + 1).last() == all[i as int]);
        }
        match score_row(students, members, i) {
            Some(row) => {
                sum = add_up(
                    sum,
                    row,
                    Ghost(rows_score(people, all.take(i as int), all)),
                    Ghost(row_score(people, all[i as int], all)),
                );
            },
            None => {
                assert(!row_valid(people, all[i as int], all));
                return None;
            },
        }
        i = i + 1;
    }
    proof {
        assert(all.take(i as int) =~= all);
    }
    Some(sum)
}

/// The score of the team, unless a member refuses another member. A member
/// who is not in the population refuses and likes nobody.
///
/// Where the team is valid, its score must be a `usize`.
pub fn score_team(students: &Students, members: &Vec<String>) -> (r: Option<usize>)
    requires
        team_valid(students@, views(members@)) ==> team_score(students@, views(members@))
            <= usize::MAX,
    ensures
        match r {
            Some(x) => team_valid(students@, views(members@)) && x == team_score(
                students@,
                views(members@),
            ),
            None => !team_valid(students@, views(members@)),
        },
{
    match tally_team(students, members) {
        Some(sum) => match sum {
            Some(x) => Some(x),
            None => Some(0),
        },
        None => None,
    }
}

/// Judges an assignment against the population.
///
/// Where no member of any team refuses another member of that team, every
/// team gets its score and the sum of the scores is returned. Otherwise the
/// assignment is left as it is and nothing is returned. A member who is not
/// in the population refuses and likes nobody.
///
/// Where the assignment is valid, its score must be a `usize`.
pub fn validate_assignment(students: &Students, assignment: &mut Vec<Team>) -> (r: Option<usize>)
    requires
        all_valid(students@, member_lists(old(assignment)@)) ==> total_score(
            students@,
            member_lists(old(assignment)@),
        ) <= usize::MAX,
    ensures
        match r {
            Some(total) => {
                &&& all_valid(students@, member_lists(old(assignment)@))
                &&& total == total_score(students@, member_lists(old(assignment)@))
                &&& team_models(final(assignment)@) == scored(
                    students@,
                    member_lists(old(assignment)@),
                )
            },
            None => !all_valid(students@, member_lists(old(assignment)@)) && *final(assignment)
                == *old(assignment),
        },
{
    let ghost people = students@;
    let ghost lists = member_lists(assignment@);
    let n = assignment.len();
    let mut scores: Vec<usize> = Vec::new();
    let mut goodness: Option<usize> = Some(0);
    let mut t: usize = 0;
    while t < n
        invariant
            t <= n,
            n == assignment.len(),
            *assignment == *old(assignment),
            people == students@,
            lists == member_lists(assignment@),
            scores.len() == t,
            stands_for(goodness, total_score(people, lists.take(t as int))),
            forall|u: int| 0 <= u < t ==> team_valid(people, #[trigger] lists[u]),
            forall|u: int|
                0 <= u < t && team_score(people, #[trigger] lists[u]) <= usize::MAX ==> scores@[u]
                    == team_score(people, lists[u]),
        decreases n - t,
    {
        proof {
            assert(lists.take(t + 1).drop_last() =~= lists.take(t as int));
            assert(lists.take(t + 1).last() == lists[t as int]);
        }
        match tally_team(students, &assignment[t].members) {
            Some(sum) => {
                let known = match sum {
                    Some(x) => x,
                    None => 0,
                };
                scores.push(known);
                goodness = add_up(
                    goodness,
                    sum,
                    Ghost(total_score(people, lists.take(t as int))),
                    Ghost(team_score(people, lists[t as int])),
                );
            },
            None => {
                assert(!team_valid(people, lists[t as int]));
                return None;
            },
        }
        t = t + 1;
    }
    proof {
        assert(lists.take(t as int) =~= lists);
        assert(all_valid(people, lists));
        assert forall|u: int| 0 <= u < n implies scores@[u] == team_score(
            people,
            #[trigger] lists[u],
        ) by {
            lemma_team_within_total(people, lists, u);
        }
    }
    let total = match goodness {
        Some(x) => x,
        None => 0,
    };
    let mut u: usize = 0;
    while u < n
        invariant
            u <= n,
            n == assignment.len(),
            n == scores.len(),
            lists == member_lists(assignment@),
            forall|k: int| 0 <= k < n ==> scores@[k] == team_score(people, #[trigger] lists[k]),
            forall|k: int| 0 <= k < u ==> (#[trigger] assignment@[k]).score == scores@[k],
        decreases n - u,
    {
        let ghost before = assignment@;
        assignment[u].score = scores[u];
        proof {
            assert(member_lists(assignment@) =~= member_lists(before));
        }
        u = u + 1;
    }
    proof {
        assert(team_models(assignment@) =~= scored(people, lists));
    }
    Some(total)
}

} // verus!
