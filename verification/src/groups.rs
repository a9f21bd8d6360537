//! Cutting an order of names into consecutive groups, and what the groups
//! hold.

use crate::names::Name;
use crate::student::{handles, known, StudentModel};
use crate::team::{member_lists, score_bound, Team};
use crate::text::views;
use vstd::prelude::*;

verus! {

/// `s` cut into consecutive groups of `size`; the last group may be smaller.
pub open spec fn grouped(s: Seq<Name>, size: nat) -> Seq<Seq<Name>>
    decreases s.len(),
{
    if s.len() == 0 {
        Seq::empty()
    } else {
        let before = grouped(s.drop_last(), size);
        if size == 0 || (s.len() - 1) % (size as int) == 0 {
            before.push(seq![s.last()])
        } else {
            before.drop_last().push(before.last().push(s.last()))
        }
    }
}

/// The members of all `groups`, one group after the other.
pub open spec fn flat(groups: Seq<Seq<Name>>) -> Seq<Name>
    decreases groups.len(),
{
    if groups.len() == 0 {
        Seq::empty()
    } else {
        flat(groups.drop_last()) + groups.last()
    }
}

/// Cutting into groups loses nothing and invents nothing: the groups, one
/// after the other, are the sequence that was cut.
pub proof fn lemma_grouped_flat(s: Seq<Name>, size: nat)
    ensures
        flat(grouped(s, size)) == s,
        s.len() > 0 ==> grouped(s, size).len() > 0,
    decreases s.len(),
{
    if s.len() == 0 {
    } else {
        let init = s.drop_last();
        lemma_grouped_flat(init, size);
        let before = grouped(init, size);
        let after = grouped(s, size);
        if size == 0 || (s.len() - 1) % (size as int) == 0 {
            assert(after.drop_last() =~= before);
            assert(flat(after) =~= s);
        } else {
            assert(init.len() > 0) by (nonlinear_arith)
                requires
                    init.len() == s.len() - 1,
                    size > 0,
                    (s.len() - 1) % (size as int) != 0,
            ;
            assert(after.drop_last() =~= before.drop_last());
            assert(after.last() == before.last().push(s.last()));
            assert(flat(before) == flat(before.drop_last()) + before.last());
            assert(flat(after) == flat(before.drop_last()) + before.last().push(s.last()));
            assert(flat(before.drop_last()) + before.last().push(s.last()) =~= (flat(
                before.drop_last(),
            ) + before.last()).push(s.last()));
            assert(init.push(s.last()) =~= s);
        }
    }
}

/// Every group but the last has exactly `size` members, and the last has
/// what is left: between 1 and `size`.
pub proof fn lemma_grouped_sizes(s: Seq<Name>, size: nat)
    requires
        size > 0,
    ensures
        forall|t: int|
            0 <= t < grouped(s, size).len() - 1 ==> (#[trigger] grouped(s, size)[t]).len() == size,
        s.len() > 0 ==> grouped(s, size).len() > 0 && grouped(s, size).last().len() == (s.len()
            - 1) % (size as int) + 1,
        s.len() % size == 0 ==> forall|t: int|
            0 <= t < grouped(s, size).len() ==> (#[trigger] grouped(s, size)[t]).len() == size,
    decreases s.len(),
{
    if s.len() > 0 {
        let init = s.drop_last();
        lemma_grouped_sizes(init, size);
        lemma_grouped_flat(init, size);
        let before = grouped(init, size);
        let after = grouped(s, size);
        let n = s.len() as int;
        let k = size as int;
        if (n - 1) % k == 0 {
            // the groups before are all full
            if init.len() > 0 {
                assert((n - 2) % k + 1 == k) by (nonlinear_arith)
                    requires
                        (n - 1) % k == 0,
                        n >= 2,
                        k > 0,
                ;
            }
            assert forall|t: int| 0 <= t < after.len() - 1 implies (#[trigger] after[t]).len()
                == size by {
                assert(after[t] == before[t]);
            }
        } else {
            assert(n >= 2) by (nonlinear_arith)
                requires
                    n >= 1,
                    k > 0,
                    (n - 1) % k != 0,
            ;
            assert((n - 1) % k == (n - 2) % k + 1) by (nonlinear_arith)
                requires
                    (n - 1) % k != 0,
                    n >= 2,
                    k > 0,
            ;
            assert forall|t: int| 0 <= t < after.len() - 1 implies (#[trigger] after[t]).len()
                == size by {
                assert(after[t] == before[t]);
            }
        }
        if n % k == 0 {
            assert((n - 1) % k + 1 == k) by (nonlinear_arith)
                requires
                    n % k == 0,
                    n >= 1,
                    k > 0,
            ;
        }
    }
}

/// The groups of several sequences of groups, one after the other, are
/// those of each, one after the other.
pub proof fn lemma_flat_concat(a: Seq<Seq<Name>>, b: Seq<Seq<Name>>)
    ensures
        flat(a + b) == flat(a) + flat(b),
    decreases b.len(),
{
    if b.len() == 0 {
        assert(a + b =~= a);
        assert(flat(a) + flat(b) =~= flat(a));
    } else {
        lemma_flat_concat(a, b.drop_last());
        assert((a + b).drop_last() =~= a + b.drop_last());
        assert((a + b).last() == b.last());
        assert(flat(a + b) =~= flat(a) + flat(b));
    }
}

/// Every member of a group is one of the names of all groups.
pub proof fn lemma_flat_contains(groups: Seq<Seq<Name>>, t: int, i: int)
    requires
        0 <= t < groups.len(),
        0 <= i < groups[t].len(),
    ensures
        flat(groups).contains(groups[t][i]),
    decreases groups.len(),
{
    let f = flat(groups);
    if t == groups.len() - 1 {
        let at = flat(groups.drop_last()).len() + i;
        assert(f[at] == groups[t][i]);
    } else {
        lemma_flat_contains(groups.drop_last(), t, i);
        let at = choose|at: int|
            0 <= at < flat(groups.drop_last()).len() && flat(groups.drop_last())[at]
                == groups[t][i];
        assert(f[at] == groups[t][i]);
    }
}

/// The score bound of groups is at most three times the square of the
/// number of their members.
pub proof fn lemma_score_bound_flat(groups: Seq<Seq<Name>>)
    ensures
        score_bound(groups) <= 3 * flat(groups).len() * flat(groups).len(),
    decreases groups.len(),
{
    if groups.len() > 0 {
        lemma_score_bound_flat(groups.drop_last());
        let a = flat(groups.drop_last()).len() as int;
        let b = groups.last().len() as int;
        assert(3 * a * a + 3 * b * b <= 3 * (a + b) * (a + b)) by (nonlinear_arith)
            requires
                a >= 0,
                b >= 0,
        ;
    }
}

/// Two sequences that hold the same names equally often hold the same names.
pub proof fn lemma_same_names(a: Seq<Name>, b: Seq<Name>)
    requires
        a.to_multiset() == b.to_multiset(),
    ensures
        a.len() == b.len(),
        forall|x: Name| a.contains(x) <==> b.contains(x),
{
    vstd::seq_lib::to_multiset_len(a);
    vstd::seq_lib::to_multiset_len(b);
    assert forall|x: Name| a.contains(x) <==> b.contains(x) by {
        vstd::seq_lib::to_multiset_contains(a, x);
        vstd::seq_lib::to_multiset_contains(b, x);
    }
}

/// Cuts `draft` into consecutive teams of `size`, each with score 0; the
/// last team may be smaller.
pub fn group_names(draft: &Vec<String>, size: usize) -> (r: Vec<Team>)
    requires
        size > 0,
    ensures
        member_lists(r@) == grouped(views(draft@), size as nat),
        forall|t: int| 0 <= t < r@.len() ==> (#[trigger] r@[t]).score == 0,
{
    let ghost all = views(draft@);
    let mut teams: Vec<Team> = Vec::new();
    let mut i: usize = 0;
    proof {
        assert(member_lists(teams@) =~= grouped(all.take(0), size as nat));
    }
    while i < draft.len()
        invariant
            i <= draft.len(),
            size > 0,
            all == views(draft@),
            member_lists(teams@) == grouped(all.take(i as int), size as nat),
            forall|t: int| 0 <= t < teams@.len() ==> (#[trigger] teams@[t]).score == 0,
        decreases draft.len() - i,
    {
        let ghost before = member_lists(teams@);
        proof {
            assert(all.take(i + 1).drop_last() =~= all.take(i as int));
            assert(all.take(i + 1).last() == all[i as int]);
            lemma_grouped_flat(all.take(i as int), size as nat);
        }
        if i % size == 0 {
            teams.push(Team::new());
            proof {
                assert(member_lists(teams@) =~= before.push(Seq::<Name>::empty()));
            }
        } else {
            proof {
                assert(i > 0) by (nonlinear_arith)
                    requires
                        size > 0,
                        i % size != 0,
                ;
                assert(before.len() > 0);
                assert(teams@.len() == before.len());
            }
        }
        let last = teams.len() - 1;
        let ghost open = views(teams@[last as int].members@);
        let ghost lists = member_lists(teams@);
        let item = draft[i].clone();
        teams[last].members.push(item);
        proof {
            assert(views(teams@[last as int].members@) =~= open.push(all[i as int]));
            assert(member_lists(teams@) =~= lists.drop_last().push(open.push(all[i as int])));
            if i % size == 0 {
                assert(lists.drop_last() =~= before);
                assert(Seq::<Name>::empty().push(all[i as int]) =~= seq![all[i as int]]);
            } else {
                assert(lists =~= before);
            }
        }
        i = i + 1;
    }
    proof {
        assert(all.take(i as int) =~= all);
    }
    teams
}

/// Where group `t` begins among the members of all `groups`.
pub open spec fn offset(groups: Seq<Seq<Name>>, t: int) -> int {
    flat(groups.take(t)).len() as int
}

/// Whether `h` is member `i` of group `t`.
pub open spec fn sits_at(groups: Seq<Seq<Name>>, h: Name, t: int, i: int) -> bool {
    0 <= t < groups.len() && 0 <= i < groups[t].len() && groups[t][i] == h
}

/// Whether `groups` holds every person of `people`, each exactly once, and
/// nobody else.
pub open spec fn assigns_everyone(people: Seq<StudentModel>, groups: Seq<Seq<Name>>) -> bool {
    handles(people).no_duplicates() && flat(groups).to_multiset() == handles(people).to_multiset()
}

/// Member `i` of group `t` stands at place `offset(groups, t) + i` among
/// the members of all groups.
pub proof fn lemma_flat_at(groups: Seq<Seq<Name>>, t: int, i: int)
    requires
        0 <= t < groups.len(),
        0 <= i < groups[t].len(),
    ensures
        0 <= offset(groups, t) + i < flat(groups).len(),
        flat(groups)[offset(groups, t) + i] == groups[t][i],
    decreases groups.len(),
{
    let init = groups.drop_last();
    if t == groups.len() - 1 {
        assert(groups.take(t) =~= init);
    } else {
        lemma_flat_at(init, t, i);
        assert(init.take(t) =~= groups.take(t));
    }
}

/// Every place among the members of all groups is a place in one group.
pub proof fn lemma_flat_find(groups: Seq<Seq<Name>>, k: int)
    requires
        0 <= k < flat(groups).len(),
    ensures
        exists|t: int, i: int| #[trigger] sits_at(groups, flat(groups)[k], t, i),
    decreases groups.len(),
{
    let init = groups.drop_last();
    if k < flat(init).len() {
        lemma_flat_find(init, k);
        let (t, i) = choose|t: int, i: int| #[trigger] sits_at(init, flat(init)[k], t, i);
        assert(sits_at(groups, flat(groups)[k], t, i));
    } else {
        assert(sits_at(groups, flat(groups)[k], groups.len() - 1, k - flat(init).len()));
    }
}

/// A later group begins where an earlier group has ended, or after that.
pub proof fn lemma_offset_grows(groups: Seq<Seq<Name>>, t: int, u: int)
    requires
        0 <= t < u <= groups.len(),
    ensures
        offset(groups, t) + groups[t].len() <= offset(groups, u),
    decreases u - t,
{
    assert(groups.take(t + 1).drop_last() =~= groups.take(t));
    assert(groups.take(t + 1).last() == groups[t]);
    if t + 1 < u {
        lemma_offset_grows(groups, t + 1, u);
    }
}

/// In an assignment that holds everyone, each person of the population
/// sits in exactly one place of exactly one team, and nobody else sits anywhere.
pub proof fn lemma_everyone_once(people: Seq<StudentModel>, groups: Seq<Seq<Name>>, h: Name)
    requires
        assigns_everyone(people, groups),
    ensures
        known(people, h) <==> exists|t: int, i: int| #[trigger] sits_at(groups, h, t, i),
        forall|t: int, i: int, u: int, j: int|
            sits_at(groups, h, t, i) && sits_at(groups, h, u, j) ==> t == u && i == j,
{
    let all = flat(groups);
    let hs = handles(people);
    lemma_same_names(all, hs);
    if known(people, h) {
        let k = choose|k: int| 0 <= k < all.len() && all[k] == h;
        lemma_flat_find(groups, k);
    }
    if exists|t: int, i: int| #[trigger] sits_at(groups, h, t, i) {
        let (t, i) = choose|t: int, i: int| #[trigger] sits_at(groups, h, t, i);
        lemma_flat_contains(groups, t, i);
    }
    hs.lemma_multiset_has_no_duplicates();
    all.lemma_multiset_has_no_duplicates_conv();
    assert forall|t: int, i: int, u: int, j: int|
        sits_at(groups, h, t, i) && sits_at(groups, h, u, j) implies t == u && i == j by {
        lemma_flat_at(groups, t, i);
        lemma_flat_at(groups, u, j);
        if t < u {
            lemma_offset_grows(groups, t, u);
        }
        if u < t {
            lemma_offset_grows(groups, u, t);
        }
    }
}

} // verus!
