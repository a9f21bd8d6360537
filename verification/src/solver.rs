//! The search for the best assignment.
//!
//! People who may work alone are set aside until the rest divides into
//! teams of the wanted size. Then a fixed number of trials each shuffle the
//! rest, cut it into consecutive teams and judge the result; the first
//! valid assignment with the highest score is kept. Every shuffle is seeded,
//! so the outcome is a function of the population, the team size, the
//! number of trials and the seed.

use crate::groups::{
    assigns_everyone, flat, group_names, grouped, lemma_flat_concat, lemma_grouped_flat,
    lemma_grouped_sizes, lemma_same_names, lemma_score_bound_flat,
};
use crate::names::Name;
use crate::student::{handles, known, person, StudentModel, Students};
use crate::team::{
    all_valid, row_valid, scored, team_models, team_valid, total_score,
    validate_assignment, Team, TeamModel,
};
use crate::text::views;
use rand::seq::SliceRandom;
use rand::SeedableRng;
use rand_chacha::ChaCha12Rng;
use vstd::prelude::*;

verus! {

/// The order in which `SliceRandom::shuffle` leaves `items` when it draws
/// from the `ChaCha12Rng` that `SeedableRng::seed_from_u64` makes of `seed`.
pub uninterp spec fn shuffled(items: Seq<Name>, seed: u64) -> Seq<Name>;

/// `SliceRandom::shuffle`, drawing from the `ChaCha12Rng` that
/// `SeedableRng::seed_from_u64` makes of `seed`: the list is rearranged in
/// place by swaps, so it holds the same names as before, each as often as
/// before. The generator is a function of the seed and the swaps are a
/// function of what the generator gives and of the length of the list, so
/// the order that comes out depends on the list and on the seed alone.
#[verifier::external_body]
fn shuffle_names(list: &mut Vec<String>, seed: u64)
    ensures
        views(final(list)@) == shuffled(views(old(list)@), seed),
        views(final(list)@).to_multiset() == views(old(list)@).to_multiset(),
{
    let mut rng = ChaCha12Rng::seed_from_u64(seed);
    list.shuffle(&mut rng);
}

/// The team size that `solve` asks for.
pub const TEAM_SIZE: usize = 2;

/// The number of trials that `solve` runs.
pub const TRIALS: usize = 1048576;

/// Whether `h` is a person who may work alone.
pub open spec fn may_work_alone(people: Seq<StudentModel>, h: Name) -> bool {
    match person(people, h) {
        Some(p) => p.ok_solo,
        None => false,
    }
}

/// The people who may work alone.
pub open spec fn eligible(people: Seq<StudentModel>) -> Set<Name> {
    Set::new(|h: Name| known(people, h) && may_work_alone(people, h))
}

/// The population split into those set aside to work alone and the pool
/// that is cut into teams.
pub struct Draft {
    pub solos: Seq<Name>,
    pub pool: Seq<Name>,
}

/// `order` split first fit: going through `order`, a person who may work
/// alone is set aside as long as fewer than `want` are.
pub open spec fn peeled(people: Seq<StudentModel>, order: Seq<Name>, want: nat) -> Draft
    decreases order.len(),
{
    if order.len() == 0 {
        Draft { solos: Seq::empty(), pool: Seq::empty() }
    } else {
        let before = peeled(people, order.drop_last(), want);
        if may_work_alone(people, order.last()) && before.solos.len() < want {
            Draft { solos: before.solos.push(order.last()), pool: before.pool }
        } else {
            Draft { solos: before.solos, pool: before.pool.push(order.last()) }
        }
    }
}

/// The split of the population for teams of `size`. Where the population
/// divides into such teams, nobody is set aside. Otherwise the population is
/// shuffled with `seed` and split first fit, setting aside as many as are
/// left over.
pub open spec fn drafted(people: Seq<StudentModel>, size: nat, seed: u64) -> Draft {
    let want = people.len() % size;
    if want == 0 {
        Draft { solos: Seq::empty(), pool: handles(people) }
    } else {
        peeled(people, shuffled(handles(people), seed), want)
    }
}

/// The seed of trial `k`, counting from 0.
pub open spec fn trial_seed(seed: u64, k: nat) -> u64 {
    seed.wrapping_add(1).wrapping_add(k as u64)
}

/// Whether the order `candidate`, cut into teams, is valid and beats `best`:
/// anything valid beats nothing, and only a higher score beats an order.
pub open spec fn beats(
    people: Seq<StudentModel>,
    size: nat,
    candidate: Seq<Name>,
    best: Option<Seq<Name>>,
) -> bool {
    all_valid(people, grouped(candidate, size)) && match best {
        None => true,
        Some(o) => total_score(people, grouped(candidate, size)) > total_score(
            people,
            grouped(o, size),
        ),
    }
}

/// A search after some trials: the order that the last trial left, and the
/// best order so far.
pub struct Search {
    pub draft: Seq<Name>,
    pub best: Option<Seq<Name>>,
}

/// The search after `k` trials on `pool`. Each trial shuffles the order that
/// the trial before it left.
pub open spec fn searched(
    people: Seq<StudentModel>,
    size: nat,
    pool: Seq<Name>,
    seed: u64,
    k: nat,
) -> Search
    decreases k,
{
    if k == 0 {
        Search { draft: pool, best: None }
    } else {
        let before = searched(people, size, pool, seed, (k - 1) as nat);
        let draft = shuffled(before.draft, trial_seed(seed, (k - 1) as nat));
        Search {
            draft,
            best: if beats(people, size, draft, before.best) {
                Some(draft)
            } else {
                before.best
            },
        }
    }
}

/// The order that trial `i` tries, counting from 0.
pub open spec fn tried(
    people: Seq<StudentModel>,
    size: nat,
    pool: Seq<Name>,
    seed: u64,
    i: nat,
) -> Seq<Name> {
    searched(people, size, pool, seed, i + 1).draft
}

/// Whether the order `o`, cut into teams of `size`, is a valid assignment.
pub open spec fn order_valid(people: Seq<StudentModel>, size: nat, o: Seq<Name>) -> bool {
    all_valid(people, grouped(o, size))
}

/// The score of the order `o` cut into teams of `size`.
pub open spec fn order_score(people: Seq<StudentModel>, size: nat, o: Seq<Name>) -> nat {
    total_score(people, grouped(o, size))
}

/// Whether the score of every valid assignment of as many names as there
/// are people, or fewer, is a `usize`.
pub open spec fn scores_fit(people: Seq<StudentModel>, size: nat) -> bool {
    forall|o: Seq<Name>|
        o.len() <= people.len() && order_valid(people, size, o) ==> #[trigger] order_score(
            people,
            size,
            o,
        ) <= usize::MAX
}

/// The scores of a population fit where three for each ordered pair of
/// people is a `usize`.
pub proof fn lemma_small_population_fits(people: Seq<StudentModel>, size: nat)
    requires
        3 * people.len() * people.len() <= usize::MAX,
    ensures
        scores_fit(people, size),
{
    assert forall|o: Seq<Name>|
        o.len() <= people.len() && order_valid(people, size, o) implies #[trigger] order_score(
        people,
        size,
        o,
    ) <= usize::MAX by {
        let g = grouped(o, size);
        lemma_grouped_flat(o, size);
        lemma_score_bound_flat(g);
        crate::team::lemma_total_score_bound(people, g);
        assert(3 * o.len() * o.len() <= 3 * people.len() * people.len()) by (nonlinear_arith)
            requires
                o.len() <= people.len(),
        ;
    }
}

/// The scores of a population fit where nobody has an attractor of either kind.
pub proof fn lemma_no_attractors_fit(people: Seq<StudentModel>, size: nat)
    requires
        forall|i: int|
            0 <= i < people.len() ==> (#[trigger] people[i]).attractors.len() == 0
                && people[i].classification_attractors.len() == 0,
    ensures
        scores_fit(people, size),
{
    assert forall|o: Seq<Name>|
        o.len() <= people.len() && order_valid(people, size, o) implies #[trigger] order_score(
        people,
        size,
        o,
    ) <= usize::MAX by {
        crate::team::lemma_no_attractors_score_zero(people, grouped(o, size));
    }
}

/// Whether trial `j` is the best of the first `k` trials: what it tried is
/// valid, no valid trial before it scored as much, and no valid trial after
/// it scored more.
pub open spec fn best_trial(
    people: Seq<StudentModel>,
    size: nat,
    pool: Seq<Name>,
    seed: u64,
    k: nat,
    j: nat,
) -> bool {
    &&& j < k
    &&& order_valid(people, size, tried(people, size, pool, seed, j))
    &&& forall|i: nat|
        i < k && order_valid(people, size, #[trigger] tried(people, size, pool, seed, i)) ==> {
            let mine = order_score(people, size, tried(people, size, pool, seed, j));
            let other = order_score(people, size, tried(people, size, pool, seed, i));
            if i < j {
                other < mine
            } else {
                other <= mine
            }
        }
}

/// Whether the search after `k` trials has kept what the best of them tried,
/// or nothing where none of them was valid.
pub open spec fn kept_the_best(
    people: Seq<StudentModel>,
    size: nat,
    pool: Seq<Name>,
    seed: u64,
    k: nat,
) -> bool {
    match searched(people, size, pool, seed, k).best {
        Some(o) => exists|j: nat| #[trigger]
            best_trial(people, size, pool, seed, k, j) && o == tried(people, size, pool, seed, j),
        None => forall|i: nat|
            i < k ==> !order_valid(people, size, #[trigger] tried(people, size, pool, seed, i)),
    }
}

/// The search keeps the first valid order of the highest score among those
/// it tried, and keeps nothing only where none of them was valid.
pub proof fn lemma_searched_best(
    people: Seq<StudentModel>,
    size: nat,
    pool: Seq<Name>,
    seed: u64,
    k: nat,
)
    ensures
        kept_the_best(people, size, pool, seed, k),
    decreases k,
{
    if k > 0 {
        let before = searched(people, size, pool, seed, (k - 1) as nat);
        let last = (k - 1) as nat;
        let draft = tried(people, size, pool, seed, last);
        lemma_searched_best(people, size, pool, seed, last);
        if beats(people, size, draft, before.best) {
            match before.best {
                Some(o) => {
                    let j = choose|j: nat| #[trigger]
                        best_trial(people, size, pool, seed, last, j) && o == tried(
                            people,
                            size,
                            pool,
                            seed,
                            j,
                        );
                    assert(order_valid(people, size, tried(people, size, pool, seed, j)));
                },
                None => {},
            }
            assert(best_trial(people, size, pool, seed, k, last));
        } else {
            match before.best {
                Some(o) => {
                    let j = choose|j: nat| #[trigger]
                        best_trial(people, size, pool, seed, last, j) && o == tried(
                            people,
                            size,
                            pool,
                            seed,
                            j,
                        );
                    assert(best_trial(people, size, pool, seed, k, j));
                },
                None => {},
            }
        }
    }
}

/// One team of one member and score 0 for each of `solos`.
pub open spec fn solo_teams(solos: Seq<Name>) -> Seq<TeamModel> {
    Seq::new(solos.len(), |i: int| TeamModel { members: seq![solos[i]], score: 0 })
}

/// The assignment made of the order `o` cut into teams of `size`, each with
/// its score, and after them one team for each of `solos`.
pub open spec fn assembled(
    people: Seq<StudentModel>,
    size: nat,
    o: Seq<Name>,
    solos: Seq<Name>,
) -> Seq<TeamModel> {
    scored(people, grouped(o, size)) + solo_teams(solos)
}

/// The assignment that the solver returns: the teams of the best order
/// found in `trials` trials, each with its score, and after them the people
/// set aside; nothing where no trial was valid.
pub open spec fn solved(people: Seq<StudentModel>, size: nat, trials: nat, seed: u64) -> Option<
    Seq<TeamModel>,
> {
    let d = drafted(people, size, seed);
    match searched(people, size, d.pool, seed, trials).best {
        Some(order) => Some(assembled(people, size, order, d.solos)),
        None => None,
    }
}

/// Where nobody refuses anybody, one trial is enough to find an assignment;
/// without a trial none is found.
pub proof fn lemma_solved_when(people: Seq<StudentModel>, size: nat, trials: nat, seed: u64)
    ensures
        trials == 0 ==> solved(people, size, trials, seed).is_none(),
        trials > 0 && (forall|i: int|
            0 <= i < people.len() ==> (#[trigger] people[i]).repulsors.len() == 0) ==> solved(
            people,
            size,
            trials,
            seed,
        ).is_some(),
{
    let pool = drafted(people, size, seed).pool;
    if trials > 0 && (forall|i: int|
        0 <= i < people.len() ==> (#[trigger] people[i]).repulsors.len() == 0) {
        lemma_searched_best(people, size, pool, seed, trials);
        let first = tried(people, size, pool, seed, 0);
        crate::team::lemma_no_repulsors_valid(people, grouped(first, size));
        assert(order_valid(people, size, first));
    }
}

/// Where nobody has an attractor of either kind, every team of every
/// assignment that is found has score 0.
pub proof fn lemma_solved_scores_zero(people: Seq<StudentModel>, size: nat, trials: nat, seed: u64)
    requires
        forall|i: int|
            0 <= i < people.len() ==> (#[trigger] people[i]).attractors.len() == 0
                && people[i].classification_attractors.len() == 0,
    ensures
        match solved(people, size, trials, seed) {
            Some(teams) => forall|t: int| 0 <= t < teams.len() ==> (#[trigger] teams[t]).score == 0,
            None => true,
        },
{
    let d = drafted(people, size, seed);
    match searched(people, size, d.pool, seed, trials).best {
        Some(order) => {
            let g = grouped(order, size);
            let teams = scored(people, g) + solo_teams(d.solos);
            crate::team::lemma_no_attractors_score_zero(people, g);
            assert forall|t: int| 0 <= t < teams.len() implies (#[trigger] teams[t]).score == 0 by {
                if t < g.len() {
                    assert(teams[t] == scored(people, g)[t]);
                } else {
                    assert(teams[t] == solo_teams(d.solos)[t - g.len()]);
                }
            }
        },
        None => {},
    }
}

/// The number of people that are set aside to work alone.
pub open spec fn left_over(people: Seq<StudentModel>, size: nat, seed: u64) -> nat {
    drafted(people, size, seed).solos.len()
}

/// Whether the last `alone` of `teams` are teams of one with score 0.
pub open spec fn ends_with_solos(teams: Seq<TeamModel>, alone: nat) -> bool {
    &&& alone <= teams.len()
    &&& forall|t: int|
        teams.len() - alone <= t < teams.len() ==> (#[trigger] teams[t]).members.len() == 1
            && teams[t].score == 0
}

/// Whether all but the last `alone` of `teams` have exactly `size` members.
pub open spec fn full_before_solos(teams: Seq<TeamModel>, alone: nat, size: nat) -> bool {
    forall|t: int| 0 <= t < teams.len() - alone ==> (#[trigger] teams[t]).members.len() == size
}

/// What holds of every assignment that the solver returns: it holds every
/// person exactly once and nobody else; no member of a team refuses another
/// member of it; its last teams are the people set aside, one each; and
/// where as many are set aside as the population leaves over when divided by
/// the team size, every other team has exactly that size.
pub open spec fn fair(people: Seq<StudentModel>, size: nat, seed: u64, teams: Seq<TeamModel>) -> bool {
    let alone = left_over(people, size, seed);
    &&& assigns_everyone(people, lists_of(teams))
    &&& all_valid(people, lists_of(teams))
    &&& ends_with_solos(teams, alone)
    &&& alone == people.len() % size ==> full_before_solos(teams, alone, size)
}

/// The member lists of a sequence of team models.
pub open spec fn lists_of(teams: Seq<TeamModel>) -> Seq<Seq<Name>> {
    Seq::new(teams.len(), |t: int| teams[t].members)
}

/// The models of an optional assignment.
pub open spec fn plan(r: Option<Vec<Team>>) -> Option<Seq<TeamModel>> {
    match r {
        Some(teams) => Some(team_models(teams@)),
        None => None,
    }
}

/// In every assignment that is found, no member of a team refuses another
/// member of it.
pub proof fn lemma_solved_valid(people: Seq<StudentModel>, size: nat, trials: nat, seed: u64)
    ensures
        match solved(people, size, trials, seed) {
            Some(teams) => all_valid(people, lists_of(teams)),
            None => true,
        },
{
    let d = drafted(people, size, seed);
    lemma_searched_best(people, size, d.pool, seed, trials);
    match searched(people, size, d.pool, seed, trials).best {
        Some(order) => {
            let g = grouped(order, size);
            let teams = scored(people, g) + solo_teams(d.solos);
            let lists = lists_of(teams);
            assert(order_valid(people, size, order));
            assert forall|t: int| 0 <= t < lists.len() implies team_valid(
                people,
                #[trigger] lists[t],
            ) by {
                if t < g.len() {
                    assert(teams[t] == scored(people, g)[t]);
                    assert(lists[t] == g[t]);
                } else {
                    assert(teams[t] == solo_teams(d.solos)[t - g.len()]);
                    assert(lists[t] == seq![d.solos[t - g.len()]]);
                    lemma_single_valid(people, d.solos[t - g.len()]);
                }
            }
        },
        None => {},
    }
}

/// In every assignment that is found, the people set aside are the last
/// teams, in the order in which they were set aside: each is the only member
/// of a team with score 0.
pub proof fn lemma_solved_ends_with_solos(
    people: Seq<StudentModel>,
    size: nat,
    trials: nat,
    seed: u64,
)
    ensures
        match solved(people, size, trials, seed) {
            Some(teams) => {
                let solos = drafted(people, size, seed).solos;
                &&& ends_with_solos(teams, left_over(people, size, seed))
                &&& forall|i: int|
                    0 <= i < solos.len() ==> (#[trigger] teams[teams.len() - solos.len() + i]).members
                        == seq![solos[i]]
            },
            None => true,
        },
{
    let d = drafted(people, size, seed);
    match searched(people, size, d.pool, seed, trials).best {
        Some(order) => {
            let g = grouped(order, size);
            let teams = scored(people, g) + solo_teams(d.solos);
            assert forall|t: int| teams.len() - d.solos.len() <= t < teams.len() implies (
            #[trigger] teams[t]).members.len() == 1 && teams[t].score == 0 by {
                assert(teams[t] == solo_teams(d.solos)[t - g.len()]);
            }
            assert forall|i: int| 0 <= i < d.solos.len() implies (#[trigger] teams[teams.len()
                - d.solos.len() + i]).members == seq![d.solos[i]] by {
                assert(teams[g.len() + i] == solo_teams(d.solos)[i]);
            }
        },
        None => {},
    }
}

/// The groups that hold one name each are, one after the other, the names.
pub proof fn lemma_flat_singles(solos: Seq<Name>)
    ensures
        flat(lists_of(solo_teams(solos))) == solos,
    decreases solos.len(),
{
    let lists = lists_of(solo_teams(solos));
    if solos.len() == 0 {
        assert(flat(lists) =~= solos);
    } else {
        lemma_flat_singles(solos.drop_last());
        assert(lists.drop_last() =~= lists_of(solo_teams(solos.drop_last())));
        assert(lists.last() == seq![solos.last()]);
        assert(flat(lists) =~= solos);
    }
}

/// The first-fit split sets aside at most `want` people, all of whom may
/// work alone; it keeps everybody, each as often as before; and where it
/// sets aside fewer than `want`, it has set aside everybody who may work alone.
pub proof fn lemma_peeled(people: Seq<StudentModel>, order: Seq<Name>, want: nat)
    ensures
        peeled(people, order, want).solos.len() <= want,
        peeled(people, order, want).solos.len() + peeled(people, order, want).pool.len()
            == order.len(),
        (peeled(people, order, want).solos + peeled(people, order, want).pool).to_multiset()
            == order.to_multiset(),
        forall|i: int|
            0 <= i < peeled(people, order, want).solos.len() ==> may_work_alone(
                people,
                #[trigger] peeled(people, order, want).solos[i],
            ),
        peeled(people, order, want).solos.len() < want ==> forall|j: int|
            0 <= j < order.len() && may_work_alone(people, order[j]) ==> peeled(
                people,
                order,
                want,
            ).solos.contains(#[trigger] order[j]),
    decreases order.len(),
{
    broadcast use vstd::multiset::group_multiset_axioms;

    let d = peeled(people, order, want);
    if order.len() == 0 {
        assert(d.solos + d.pool =~= order);
    } else {
        let init = order.drop_last();
        let h = order.last();
        lemma_peeled(people, init, want);
        let b = peeled(people, init, want);
        assert(init.push(h) =~= order);
        vstd::seq_lib::to_multiset_build(init, h);
        vstd::seq_lib::lemma_multiset_commutative(b.solos, b.pool);
        vstd::seq_lib::lemma_multiset_commutative(d.solos, d.pool);
        if may_work_alone(people, h) && b.solos.len() < want {
            vstd::seq_lib::to_multiset_build(b.solos, h);
            assert((d.solos + d.pool).to_multiset() =~= order.to_multiset());
            if d.solos.len() < want {
                assert forall|j: int|
                    0 <= j < order.len() && may_work_alone(people, order[j]) implies d.solos.contains(
                    #[trigger] order[j],
                ) by {
                    if j < init.len() {
                        assert(init[j] == order[j]);
                        let at = choose|at: int| 0 <= at < b.solos.len() && b.solos[at] == init[j];
                        assert(d.solos[at] == order[j]);
                    } else {
                        assert(d.solos[d.solos.len() - 1] == h);
                    }
                }
            }
        } else {
            vstd::seq_lib::to_multiset_build(b.pool, h);
            assert((d.solos + d.pool).to_multiset() =~= order.to_multiset());
            if d.solos.len() < want {
                assert forall|j: int|
                    0 <= j < order.len() && may_work_alone(people, order[j]) implies d.solos.contains(
                    #[trigger] order[j],
                ) by {
                    if j < init.len() {
                        assert(init[j] == order[j]);
                    }
                }
            }
        }
    }
}

/// What is left of `n` after `n % size` are taken away divides by `size`.
pub proof fn lemma_rest_divides(n: nat, taken: nat, size: nat)
    requires
        size > 0,
        taken == n % size,
    ensures
        taken <= n,
        ((n - taken) as nat) % size == 0,
{
    vstd::arithmetic::div_mod::lemma_fundamental_div_mod(n as int, size as int);
    vstd::arithmetic::div_mod::lemma_mod_multiples_basic(n as int / size as int, size as int);
    assert(n - taken == (n as int / size as int) * size) by (nonlinear_arith)
        requires
            n == size * (n as int / size as int) + taken,
    ;
    vstd::arithmetic::div_mod::lemma_mod_bound(n as int, size as int);
}

/// Where at least `want` people may work alone, the first-fit split of any
/// order of the population sets aside exactly `want`.
pub proof fn lemma_enough_eligible(people: Seq<StudentModel>, order: Seq<Name>, want: nat)
    requires
        order.to_multiset() == handles(people).to_multiset(),
        eligible(people).len() >= want,
    ensures
        peeled(people, order, want).solos.len() == want,
{
    let d = peeled(people, order, want);
    lemma_peeled(people, order, want);
    lemma_same_names(order, handles(people));
    if d.solos.len() < want {
        let set = d.solos.to_set();
        vstd::seq_lib::seq_to_set_is_finite(d.solos);
        assert forall|h: Name| eligible(people).contains(h) implies set.contains(h) by {
            assert(order.contains(h));
            let j = choose|j: int| 0 <= j < order.len() && order[j] == h;
            assert(d.solos.contains(order[j]));
        }
        assert(eligible(people).subset_of(set));
        vstd::set_lib::lemma_len_subset(eligible(people), set);
        d.solos.lemma_cardinality_of_set();
    }
}

/// One person alone is a valid team.
pub proof fn lemma_single_valid(people: Seq<StudentModel>, x: Name)
    ensures
        team_valid(people, seq![x]),
{
    let m = seq![x];
    assert forall|i: int| 0 <= i < m.len() implies row_valid(people, #[trigger] m[i], m) by {
    }
}

/// Whatever rearrangement `o` of the pool is cut into teams, the assignment
/// made of it and of the people set aside holds every person exactly once
/// and nobody else, and ends with the people set aside, one in each team.
/// It is valid where the teams cut from `o` are. Where as many are set aside
/// as the population leaves over when divided by the team size, every team
/// before them has exactly that size.
pub proof fn lemma_assembled_fair(
    people: Seq<StudentModel>,
    size: nat,
    solos: Seq<Name>,
    pool: Seq<Name>,
    o: Seq<Name>,
)
    requires
        size > 0,
        handles(people).no_duplicates(),
        (solos + pool).to_multiset() == handles(people).to_multiset(),
        o.to_multiset() == pool.to_multiset(),
    ensures
        assigns_everyone(people, lists_of(assembled(people, size, o, solos))),
        ends_with_solos(assembled(people, size, o, solos), solos.len()),
        order_valid(people, size, o) ==> all_valid(
            people,
            lists_of(assembled(people, size, o, solos)),
        ),
        solos.len() == people.len() % size ==> full_before_solos(
            assembled(people, size, o, solos),
            solos.len(),
            size,
        ),
{
    let hs = handles(people);
    let models = assembled(people, size, o, solos);
    let lists = lists_of(models);
    let g = grouped(o, size);
    let singles = lists_of(solo_teams(solos));
    let full = g.len() as int;
    assert forall|t: int| 0 <= t < lists.len() implies lists[t] == (g + singles)[t] by {
        if t < g.len() {
            assert(models[t] == scored(people, g)[t]);
        } else {
            assert(models[t] == solo_teams(solos)[t - g.len()]);
        }
    }
    assert(lists =~= g + singles);
    lemma_flat_concat(g, singles);
    lemma_grouped_flat(o, size);
    lemma_flat_singles(solos);
    vstd::seq_lib::lemma_multiset_commutative(o, solos);
    vstd::seq_lib::lemma_multiset_commutative(pool, solos);
    vstd::seq_lib::lemma_seq_union_to_multiset_commutative(pool, solos);
    assert(flat(lists) == o + solos);
    assert(assigns_everyone(people, lists));
    if order_valid(people, size, o) {
        assert forall|t: int| 0 <= t < lists.len() implies team_valid(people, #[trigger] lists[t]) by {
            if t < g.len() {
                assert(lists[t] == g[t]);
            } else {
                assert(lists[t] == seq![solos[t - g.len()]]);
                lemma_single_valid(people, solos[t - g.len()]);
            }
        }
    }
    assert forall|t: int| models.len() - solos.len() <= t < models.len() implies (
    #[trigger] models[t]).members.len() == 1 && models[t].score == 0 by {
        assert(models[t] == solo_teams(solos)[t - full]);
    }
    if solos.len() == people.len() % size {
        lemma_same_names(o, pool);
        lemma_same_names(solos + pool, hs);
        assert(pool.len() % size == 0) by {
            lemma_rest_divides(hs.len(), solos.len(), size);
        }
        lemma_grouped_sizes(o, size);
        assert forall|t: int| 0 <= t < full implies (#[trigger] models[t]).members.len() == size by {
            assert(models[t] == scored(people, g)[t]);
        }
    }
}

/// Splits `order` first fit: a person who may work alone is set aside as
/// long as fewer than `want` are. Returns those set aside and the rest.
pub fn peel(students: &Students, order: &Vec<String>, want: usize) -> (r: (Vec<String>, Vec<String>))
    ensures
        views(r.0@) == peeled(students@, views(order@), want as nat).solos,
        views(r.1@) == peeled(students@, views(order@), want as nat).pool,
{
    let ghost people = students@;
    let ghost all = views(order@);
    let mut solos: Vec<String> = Vec::new();
    let mut pool: Vec<String> = Vec::new();
    let mut i: usize = 0;
    proof {
        assert(views(solos@) =~= Seq::<Name>::empty());
        assert(views(pool@) =~= Seq::<Name>::empty());
    }
    while i < order.len()
        invariant
            i <= order.len(),
            people == students@,
            all == views(order@),
            views(solos@) == peeled(people, all.take(i as int), want as nat).solos,
            views(pool@) == peeled(people, all.take(i as int), want as nat).pool,
        decreases order.len() - i,
    {
        let ghost s0 = views(solos@);
        let ghost p0 = views(pool@);
        proof {
            assert(all.take(i + 1).drop_last() =~= all.take(i as int));
            assert(all.take(i + 1).last() == all[i as int]);
        }
        let alone = match students.get(order[i].as_str()) {
            Some(s) => s.ok_solo,
            None => false,
        };
        let item = order[i].clone();
        if alone && solos.len() < want {
            solos.push(item);
            proof {
                assert(views(solos@) =~= s0.push(all[i as int]));
            }
        } else {
            pool.push(item);
            proof {
                assert(views(pool@) =~= p0.push(all[i as int]));
            }
        }
        i = i + 1;
    }
    proof {
        assert(all.take(i as int) =~= all);
    }
    (solos, pool)
}

/// Searches for the best assignment of the population to teams of
/// `team_size`, in `trials` trials seeded from `seed`.
///
/// The result is a function of the arguments: the same population, team
/// size, number of trials and seed give the same assignment. An assignment
/// that is returned holds every person exactly once, and no member of a team
/// is refused by another member of it. Its last teams are the people set
/// aside to work alone: as many as the population leaves over when divided
/// by the team size, provided that many may work alone; every other team
/// then has exactly `team_size` members.
///
/// The score of every valid assignment of the population must be a `usize`;
/// `lemma_small_population_fits` says for which sizes that is sure.
pub fn solve_with(students: &Students, team_size: usize, trials: usize, seed: u64) -> (r: Option<
    Vec<Team>,
>)
    requires
        team_size > 0,
        scores_fit(students@, team_size as nat),
    ensures
        plan(r) == solved(students@, team_size as nat, trials as nat, seed),
        left_over(students@, team_size as nat, seed) <= students@.len() % (team_size as nat),
        eligible(students@).len() >= students@.len() % (team_size as nat) ==> left_over(
            students@,
            team_size as nat,
            seed,
        ) == students@.len() % (team_size as nat),
        r matches Some(teams) ==> fair(students@, team_size as nat, seed, team_models(teams@)),
{
    let ghost people = students@;
    let ghost size = team_size as nat;
    let ghost hs = handles(people);
    let mut draft = students.handle_list();
    let n = draft.len();
    let want = n % team_size;
    let mut solos: Vec<String> = Vec::new();
    proof {
        assert(views(solos@) =~= Seq::<Name>::empty());
        hs.to_multiset_ensures();
    }
    if want != 0 {
        shuffle_names(&mut draft, seed);
        let ghost order = views(draft@);
        let (set_aside, rest) = peel(students, &draft, want);
        solos = set_aside;
        draft = rest;
        proof {
            lemma_peeled(people, order, want as nat);
            if eligible(people).len() >= want {
                lemma_enough_eligible(people, order, want as nat);
            }
        }
    } else {
        proof {
            assert(views(solos@) + hs =~= hs);
        }
    }
    let ghost d = drafted(people, size, seed);
    let ghost pool = d.pool;
    assert(views(solos@) == d.solos && views(draft@) == pool);
    assert((d.solos + pool).to_multiset() == hs.to_multiset());
    proof {
        lemma_same_names(d.solos + pool, hs);
        assert(pool.len() <= hs.len());
    }

    let mut best: Option<Vec<Team>> = None;
    let mut highest: usize = 0;
    let mut k: usize = 0;
    while k < trials
        invariant
            k <= trials,
            team_size > 0,
            size == team_size as nat,
            people == students@,
            hs == handles(people),
            scores_fit(people, size),
            pool.len() <= hs.len(),
            views(draft@) == searched(people, size, pool, seed, k as nat).draft,
            views(draft@).to_multiset() == pool.to_multiset(),
            match best {
                Some(b) => searched(people, size, pool, seed, k as nat).best matches Some(o)
                    && team_models(b@) == scored(people, grouped(o, size)) && highest
                    == total_score(people, grouped(o, size)) && o.to_multiset()
                    == pool.to_multiset() && all_valid(people, grouped(o, size)),
                None => searched(people, size, pool, seed, k as nat).best.is_none(),
            },
        decreases trials - k,
    {
        let ghost before = searched(people, size, pool, seed, k as nat);
        shuffle_names(&mut draft, seed.wrapping_add(1).wrapping_add(k as u64));
        let ghost order = views(draft@);
        let mut assignment = group_names(&draft, team_size);
        proof {
            assert(order == shuffled(before.draft, trial_seed(seed, k as nat)));
            lemma_same_names(order, pool);
            lemma_grouped_flat(order, size);
            assert(order.len() <= people.len());
            assert(order_valid(people, size, order) ==> order_score(people, size, order)
                <= usize::MAX);
        }
        match validate_assignment(students, &mut assignment) {
            Some(score) => {
                if best.is_none() || score > highest {
                    best = Some(assignment);
                    highest = score;
                }
            },
            None => {},
        }
        k = k + 1;
    }

    let ghost found = searched(people, size, pool, seed, trials as nat).best;
    match best {
        Some(mut teams) => {
            let ghost o = found.unwrap();
            let mut i: usize = 0;
            proof {
                assert(scored(people, grouped(o, size)) + solo_teams(d.solos.take(0)) =~= scored(
                    people,
                    grouped(o, size),
                ));
            }
            while i < solos.len()
                invariant
                    i <= solos.len(),
                    views(solos@) == d.solos,
                    team_models(teams@) == scored(people, grouped(o, size)) + solo_teams(
                        d.solos.take(i as int),
                    ),
                decreases solos.len() - i,
            {
                let ghost before = team_models(teams@);
                let mut members: Vec<String> = Vec::new();
                members.push(solos[i].clone());
                let team = Team { members, score: 0 };
                proof {
                    assert(team@.members =~= seq![d.solos[i as int]]);
                }
                teams.push(team);
                proof {
                    assert(team_models(teams@) =~= before.push(team@));
                    assert(solo_teams(d.solos.take(i + 1)) =~= solo_teams(
                        d.solos.take(i as int),
                    ).push(team@));
                    assert(team_models(teams@) =~= scored(people, grouped(o, size)) + solo_teams(
                        d.solos.take(i + 1),
                    ));
                }
                i = i + 1;
            }
            proof {
                assert(d.solos.take(i as int) =~= d.solos);
                assert(team_models(teams@) == assembled(people, size, o, d.solos));
                lemma_assembled_fair(people, size, d.solos, pool, o);
            }
            Some(teams)
        },
        None => None,
    }
}

/// Searches for the best assignment of the population to teams of two, in
/// 1048576 trials seeded from `seed`. It is `solve_with` for that team size
/// and that number of trials.
pub fn solve(students: &Students, seed: u64) -> (r: Option<Vec<Team>>)
    requires
        scores_fit(students@, TEAM_SIZE as nat),
    ensures
        plan(r) == solved(students@, TEAM_SIZE as nat, TRIALS as nat, seed),
        left_over(students@, TEAM_SIZE as nat, seed) <= students@.len() % (TEAM_SIZE as nat),
        eligible(students@).len() >= students@.len() % (TEAM_SIZE as nat) ==> left_over(
            students@,
            TEAM_SIZE as nat,
            seed,
        ) == students@.len() % (TEAM_SIZE as nat),
        r matches Some(teams) ==> fair(students@, TEAM_SIZE as nat, seed, team_models(teams@)),
{
    solve_with(students, TEAM_SIZE, TRIALS, seed)
}

} // verus!
