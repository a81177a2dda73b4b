//! The order in which the fighters of a fight begin.
//!
//! Every team is ranked by frequency. Then the teams are drawn one after the
//! other, a team of higher frequency with a better chance, and the fighters
//! follow each other team by team.

use crate::number::Real;
use crate::rng::OfficialRng;
use vstd::multiset::*;
use vstd::prelude::*;

verus! {

/// The frequency of a fighter of which none is known.
pub const DEFAULT_FREQUENCY: i64 = 100;

/// Where a fighter is put into a ranking: behind all of at least its
/// frequency.
pub open spec fn rank_of(ranking: Seq<(i64, i64)>, frequency: i64) -> int
    decreases ranking.len(),
{
    if ranking.len() == 0 || ranking.last().1 >= frequency {
        ranking.len() as int
    } else {
        rank_of(ranking.drop_last(), frequency)
    }
}

/// A team ranked by frequency, the highest first; equal ones keep their
/// order.
pub open spec fn ranked(team: Seq<(i64, i64)>) -> Seq<(i64, i64)>
    decreases team.len(),
{
    if team.len() == 0 {
        team
    } else {
        let before = ranked(team.drop_last());
        before.insert(rank_of(before, team.last().1), team.last())
    }
}

/// Whether a ranking falls.
pub open spec fn falls(ranking: Seq<(i64, i64)>) -> bool {
    forall|i: int, j: int| 0 <= i <= j < ranking.len() ==> ranking[i].1 >= ranking[j].1
}

/// The teams, each ranked.
pub open spec fn queues_of(teams: Seq<Seq<(i64, i64)>>) -> Seq<Seq<(i64, i64)>> {
    teams.map_values(|t: Seq<(i64, i64)>| ranked(t))
}

/// The fighters of teams, each with its frequency.
pub open spec fn members_of(teams: Seq<Vec<(i64, i64)>>) -> Seq<Seq<(i64, i64)>> {
    teams.map_values(|t: Vec<(i64, i64)>| t@)
}

/// A number as a double holds it: beyond the largest, a number beyond it, and
/// below the smallest, zero.
pub open spec fn bounded(r: Real) -> Real {
    if r.mant == 0 || -1100 <= r.exp + 52 <= 1023 {
        r
    } else if r.exp + 52 > 1023 {
        Real { exp: 1100, mant: crate::number::HIDDEN, ..r }
    } else {
        crate::number::nearest(false, 0, 0)
    }
}

/// The sum of a list of numbers, from the first on.
pub open spec fn total_of(list: Seq<Real>) -> Real
    decreases list.len(),
{
    if list.len() == 0 {
        crate::number::nearest(false, 0, 0)
    } else {
        bounded(total_of(list.drop_last()).spec_add(list.last()))
    }
}

/// A part of what is left. Nothing left makes any part as good as certain.
pub open spec fn share(p: Real, left: Real) -> Real {
    if left.mant == 0 {
        if p.mant == 0 {
            p
        } else {
            Real { exp: 1100, mant: crate::number::HIDDEN, ..p }
        }
    } else {
        bounded(p.spec_div(left))
    }
}

/// All parts of what is left.
pub open spec fn shares(probas: Seq<Real>, left: Real) -> Seq<Real> {
    probas.map_values(|p: Real| share(p, left))
}

/// The chance of a team against a weight of the others.
pub open spec fn odds(weight: Real) -> Real {
    share(crate::power::one(), bounded(crate::power::one().spec_add(weight)))
}

/// The chances of all teams, which make up 1.
pub open spec fn chances(weights: Seq<Real>) -> Seq<Real> {
    let all = weights.map_values(|w: Real| odds(w));
    shares(all, total_of(all))
}

/// Which of the remaining teams is drawn: the first of which the chance is
/// not below what is left of the draw, from the `i`-th on; the last one where
/// rounding leaves none.
pub open spec fn drawn(remaining: Seq<usize>, probas: Seq<Real>, v: Real, i: int) -> int
    decreases remaining.len() - i,
{
    if i >= remaining.len() - 1 {
        remaining.len() - 1
    } else {
        let p = probas[remaining[i] as int];
        if !p.spec_less(v) {
            i
        } else {
            drawn(remaining, probas, bounded(v.spec_sub(p)), i + 1)
        }
    }
}

/// The remaining teams in the order in which they are drawn, from the state
/// `n` of the random stream.
pub open spec fn draw_order(remaining: Seq<usize>, probas: Seq<Real>, n: int) -> Seq<usize>
    decreases remaining.len(),
{
    if remaining.len() == 0 {
        Seq::empty()
    } else {
        let next = crate::rng::successor(n);
        let i = drawn(
            remaining,
            probas,
            crate::power::chance(crate::rng::fraction(next)),
            0,
        );
        if 0 <= i < remaining.len() {
            let left = bounded(
                crate::power::one().spec_sub(probas[remaining[i] as int]),
            );
            seq![remaining[i]] + draw_order(remaining.remove(i), shares(probas, left), next)
        } else {
            Seq::empty()
        }
    }
}

/// The state of the random stream after a number of draws.
pub open spec fn after_draws(n: int, draws: nat) -> int
    decreases draws,
{
    if draws == 0 {
        n
    } else {
        after_draws(crate::rng::successor(n), (draws - 1) as nat)
    }
}

/// The `k`-th fighters of the first `n` teams of an order, of those that have
/// so many.
pub open spec fn wave(queues: Seq<Seq<(i64, i64)>>, order: Seq<usize>, k: int, n: nat) -> Seq<i64>
    decreases n,
{
    if n == 0 {
        Seq::empty()
    } else {
        let before = wave(queues, order, k, (n - 1) as nat);
        let queue = queues[order[n - 1] as int];
        if k < queue.len() {
            before.push(queue[k].0)
        } else {
            before
        }
    }
}

/// The first `n` fighters of every team, wave by wave.
pub open spec fn waves(queues: Seq<Seq<(i64, i64)>>, order: Seq<usize>, n: nat) -> Seq<i64>
    decreases n,
{
    if n == 0 {
        Seq::empty()
    } else {
        waves(queues, order, (n - 1) as nat) + wave(queues, order, n - 1, order.len())
    }
}

/// The length of the longest of the first `n` queues.
pub open spec fn longest(queues: Seq<Seq<(i64, i64)>>, n: nat) -> nat
    decreases n,
{
    if n == 0 {
        0
    } else {
        let before = longest(queues, (n - 1) as nat);
        if queues[n - 1].len() > before {
            queues[n - 1].len()
        } else {
            before
        }
    }
}

/// The teams by their index.
pub open spec fn indices(n: nat) -> Seq<usize> {
    Seq::new(n, |i: int| i as usize)
}

/// The order in which the fighters begin, from the state `n` of the random
/// stream.
pub open spec fn start_order(teams: Seq<Seq<(i64, i64)>>, weights: Seq<Real>, n: int) -> Seq<i64> {
    let queues = queues_of(teams);
    let order = draw_order(indices(teams.len()), chances(weights), n);
    waves(queues, order, longest(queues, queues.len()))
}

/// The place in a ranking is one.
proof fn lemma_rank(ranking: Seq<(i64, i64)>, frequency: i64)
    ensures
        0 <= rank_of(ranking, frequency) <= ranking.len(),
        forall|i: int|
            rank_of(ranking, frequency) <= i < ranking.len() ==> (#[trigger] ranking[i]).1
                < frequency,
        falls(ranking) ==> forall|i: int|
            0 <= i < rank_of(ranking, frequency) ==> (#[trigger] ranking[i]).1 >= frequency,
    decreases ranking.len(),
{
    if ranking.len() > 0 && ranking.last().1 < frequency {
        lemma_rank(ranking.drop_last(), frequency);
        let short = ranking.drop_last();
        assert(forall|i: int| 0 <= i < short.len() ==> short[i] == ranking[i]);
        if falls(ranking) {
            assert(falls(short));
        }
        assert forall|i: int| rank_of(ranking, frequency) <= i < ranking.len() implies (
        #[trigger] ranking[i]).1 < frequency by {
            if i < short.len() {
                assert(short[i] == ranking[i]);
            }
        }
        if falls(ranking) {
            assert forall|i: int| 0 <= i < rank_of(ranking, frequency) implies (
            #[trigger] ranking[i]).1 >= frequency by {
                assert(short[i] == ranking[i]);
            }
        }
    } else if ranking.len() > 0 && falls(ranking) {
        assert forall|i: int| 0 <= i < rank_of(ranking, frequency) implies (
        #[trigger] ranking[i]).1 >= frequency by {
            assert(ranking[i].1 >= ranking[ranking.len() - 1].1);
        }
    }
}

/// A ranking holds the fighters of the team, each once, and falls.
pub proof fn lemma_ranked(team: Seq<(i64, i64)>)
    ensures
        ranked(team).len() == team.len(),
        ranked(team).to_multiset() == team.to_multiset(),
        falls(ranked(team)),
    decreases team.len(),
{
    broadcast use vstd::seq_lib::group_to_multiset_ensures;

    if team.len() > 0 {
        let before = ranked(team.drop_last());
        let x = team.last();
        lemma_ranked(team.drop_last());
        lemma_rank(before, x.1);
        let at = rank_of(before, x.1);
        let after = before.insert(at, x);
        assert(after.to_multiset() =~= before.to_multiset().insert(x)) by {
            assert(after.remove(at) =~= before);
            assert(after[at] == x);
            assert(after.contains(x));
            assert(after.to_multiset().count(x) > 0);
            assert(after.remove(at).to_multiset() =~= after.to_multiset().remove(after[at]));
        }
        assert(team =~= team.drop_last().push(x));
        assert(team.to_multiset() =~= team.drop_last().to_multiset().insert(x));
        assert forall|i: int, j: int| 0 <= i <= j < after.len() implies after[i].1 >= after[j].1 by {
            let bi = if i < at {
                i
            } else {
                i - 1
            };
            let bj = if j < at {
                j
            } else {
                j - 1
            };
            if i != at {
                assert(after[i] == before[bi]);
            }
            if j != at {
                assert(after[j] == before[bj]);
            }
        }
    }
}

/// Whether every number of a list is one that a double holds.
pub open spec fn finite(list: Seq<Real>) -> bool {
    forall|i: int| 0 <= i < list.len() ==> (#[trigger] list[i]).within(1200)
}

pub(crate) fn bound(r: Real) -> (b: Real)
    requires
        r.wf(),
    ensures
        b == bounded(r),
        b.within(1200),
{
    if r.mant == 0 || (-1152 <= r.exp && r.exp <= 971) {
        r
    } else if r.exp > 971 {
        Real { neg: r.neg, mant: crate::number::HIDDEN, exp: 1100 }
    } else {
        Real::zero()
    }
}

fn share_of(p: Real, left: Real) -> (r: Real)
    requires
        p.within(1200),
        left.within(1200),
    ensures
        r == share(p, left),
        r.within(1200),
{
    if left.mant == 0 {
        if p.mant == 0 {
            p
        } else {
            Real { neg: p.neg, mant: crate::number::HIDDEN, exp: 1100 }
        }
    } else {
        bound(p.over(left))
    }
}

fn shares_of(probas: &Vec<Real>, left: Real) -> (r: Vec<Real>)
    requires
        finite(probas@),
        left.within(1200),
    ensures
        r@ == shares(probas@, left),
        finite(r@),
{
    let mut r: Vec<Real> = Vec::new();
    let mut i: usize = 0;
    while i < probas.len()
        invariant
            finite(probas@),
            left.within(1200),
            i <= probas@.len(),
            r@ == shares(probas@.take(i as int), left),
            finite(r@),
        decreases probas.len() - i,
    {
        assert(probas@[i as int].within(1200));
        r.push(share_of(probas[i], left));
        i += 1;
        assert(r@ =~= shares(probas@.take(i as int), left));
    }
    assert(probas@.take(i as int) =~= probas@);
    r
}

fn chances_of(weights: &[Real]) -> (r: Vec<Real>)
    requires
        finite(weights@),
    ensures
        r@ == chances(weights@),
        finite(r@),
{
    let ghost goal = weights@.map_values(|w: Real| odds(w));
    let mut all: Vec<Real> = Vec::new();
    let mut sum: Real = Real::zero();
    let mut i: usize = 0;
    while i < weights.len()
        invariant
            finite(weights@),
            i <= weights@.len(),
            goal == weights@.map_values(|w: Real| odds(w)),
            all@ == goal.take(i as int),
            finite(all@),
            sum == total_of(all@),
            sum.within(1200),
        decreases weights.len() - i,
    {
        assert(weights@[i as int].within(1200));
        let one: Real = crate::power::full_power();
        let p: Real = share_of(one, bound(one.plus(weights[i])));
        let ghost before = all@;
        sum = bound(sum.plus(p));
        all.push(p);
        i += 1;
        assert(all@ =~= goal.take(i as int));
        assert(all@.drop_last() =~= before);
    }
    assert(all@ =~= goal);
    shares_of(&all, sum)
}

/// A team ranked by frequency.
fn rank_team(team: &Vec<(i64, i64)>) -> (r: Vec<(i64, i64)>)
    ensures
        r@ == ranked(team@),
{
    let mut r: Vec<(i64, i64)> = Vec::new();
    let mut i: usize = 0;
    assert(team@.take(0) =~= Seq::<(i64, i64)>::empty());
    while i < team.len()
        invariant
            i <= team@.len(),
            r@ == ranked(team@.take(i as int)),
            r@.len() == i,
        decreases team.len() - i,
    {
        let x: (i64, i64) = team[i];
        let mut at: usize = r.len();
        assert(r@.take(at as int) =~= r@);
        while at > 0 && r[at - 1].1 < x.1
            invariant
                at <= r@.len(),
                rank_of(r@.take(at as int), x.1) == rank_of(r@, x.1),
            decreases at,
        {
            assert(r@.take(at as int).drop_last() =~= r@.take(at - 1));
            at -= 1;
        }
        assert(team@.take(i + 1).drop_last() =~= team@.take(i as int));
        assert(rank_of(r@.take(at as int), x.1) == at);
        r.insert(at, x);
        i += 1;
    }
    assert(team@.take(i as int) =~= team@);
    r
}

/// Which of the remaining teams a draw picks.
fn pick(remaining: &Vec<usize>, probas: &Vec<Real>, draw: Real) -> (i: usize)
    requires
        remaining@.len() > 0,
        crate::fighter::all_below(remaining@, probas@.len() as int),
        finite(probas@),
        draw.within(1200),
    ensures
        i == drawn(remaining@, probas@, draw, 0),
        i < remaining@.len(),
{
    let mut v: Real = draw;
    let mut i: usize = 0;
    while i < remaining.len() - 1
        invariant
            remaining@.len() > 0,
            crate::fighter::all_below(remaining@, probas@.len() as int),
            finite(probas@),
            v.within(1200),
            i < remaining@.len(),
            drawn(remaining@, probas@, v, i as int) == drawn(remaining@, probas@, draw, 0),
        decreases remaining.len() - i,
    {
        assert(remaining@[i as int] < probas@.len());
        let p: Real = probas[remaining[i]];
        assert(p.within(1200));
        if !p.less(v) {
            return i;
        }
        v = bound(v.minus(p));
        i += 1;
    }
    i
}

/// The teams in the order in which they are drawn.
fn draw_teams(n: usize, weights: &[Real], rng: &mut OfficialRng) -> (order: Vec<usize>)
    requires
        n == weights@.len(),
        finite(weights@),
    ensures
        order@ == draw_order(indices(n as nat), chances(weights@), old(rng)@),
        order@.len() == n,
        crate::fighter::all_below(order@, n as int),
        final(rng)@ == after_draws(old(rng)@, n as nat),
{
    let ghost goal = draw_order(indices(n as nat), chances(weights@), rng@);
    let mut remaining: Vec<usize> = Vec::new();
    let mut k: usize = 0;
    while k < n
        invariant
            k <= n,
            remaining@ == indices(k as nat),
        decreases n - k,
    {
        remaining.push(k);
        k += 1;
        assert(remaining@ =~= indices(k as nat));
    }
    let mut probas: Vec<Real> = chances_of(weights);
    assert(probas@.len() == n);
    let mut order: Vec<usize> = Vec::new();
    assert(goal =~= order@ + goal);
    while remaining.len() > 0
        invariant
            order@.len() + remaining@.len() == n,
            probas@.len() == n,
            crate::fighter::all_below(remaining@, n as int),
            crate::fighter::all_below(order@, n as int),
            finite(probas@),
            goal == order@ + draw_order(remaining@, probas@, rng@),
            after_draws(rng@, remaining@.len()) == after_draws(old(rng)@, n as nat),
        decreases remaining.len(),
    {
        let ghost before = remaining@;
        let ghost picked = order@;
        let draw: i64 = rng.draw();
        let i: usize = pick(&remaining, &probas, crate::power::chance_of(draw));
        let team: usize = remaining[i];
        assert(before[i as int] < n);
        let p: Real = probas[team];
        assert(p.within(1200));
        let left: Real = bound(crate::power::full_power().minus(p));
        let _ = remaining.remove(i);
        probas = shares_of(&probas, left);
        order.push(team);
        assert(goal =~= order@ + draw_order(remaining@, probas@, rng@));
    }
    assert(goal =~= order@);
    order
}

/// The order in which the fighters of teams begin: `weights` holds, for each
/// team, 10 to the power of a hundredth of what the first frequencies of the
/// others come to (see [`start_exponents`]). One draw is made for each team.
#[must_use]
pub fn compute_start_order(
    teams: &[Vec<(i64, i64)>],
    weights: &[Real],
    rng: &mut OfficialRng,
) -> (order: Vec<i64>)
    requires
        weights@.len() == teams@.len(),
        finite(weights@),
    ensures
        order@ == start_order(members_of(teams@), weights@, old(rng)@),
        final(rng)@ == after_draws(old(rng)@, teams@.len()),
{
    let ghost queues_goal = queues_of(members_of(teams@));
    let mut queues: Vec<Vec<(i64, i64)>> = Vec::new();
    let mut longest_queue: usize = 0;
    let mut i: usize = 0;
    while i < teams.len()
        invariant
            i <= teams@.len(),
            queues_goal == queues_of(members_of(teams@)),
            queues@.len() == i,
            forall|j: int| 0 <= j < i ==> (#[trigger] queues@[j])@ == queues_goal[j],
            longest_queue == longest(queues_goal, i as nat),
        decreases teams.len() - i,
    {
        let queue: Vec<(i64, i64)> = rank_team(&teams[i]);
        if queue.len() > longest_queue {
            longest_queue = queue.len();
        }
        queues.push(queue);
        i += 1;
    }
    let team_order: Vec<usize> = draw_teams(teams.len(), weights, rng);
    let mut order: Vec<i64> = Vec::new();
    let mut k: usize = 0;
    while k < longest_queue
        invariant
            k <= longest_queue,
            queues@.len() == teams@.len(),
            queues_goal.len() == teams@.len(),
            forall|j: int| 0 <= j < queues@.len() ==> (#[trigger] queues@[j])@ == queues_goal[j],
            crate::fighter::all_below(team_order@, teams@.len() as int),
            order@ == waves(queues_goal, team_order@, k as nat),
        decreases longest_queue - k,
    {
        let ghost before = order@;
        let mut t: usize = 0;
        assert(order@ =~= before + wave(queues_goal, team_order@, k as int, 0));
        while t < team_order.len()
            invariant
                t <= team_order@.len(),
                queues@.len() == teams@.len(),
                forall|j: int|
                    0 <= j < queues@.len() ==> (#[trigger] queues@[j])@ == queues_goal[j],
                crate::fighter::all_below(team_order@, teams@.len() as int),
                order@ == before + wave(queues_goal, team_order@, k as int, t as nat),
            decreases team_order.len() - t,
        {
            let team: usize = team_order[t];
            assert(team_order@[t as int] < teams@.len());
            assert(queues@[team as int]@ == queues_goal[team as int]);
            if k < queues[team].len() {
                order.push(queues[team][k].0);
            }
            t += 1;
            assert(order@ =~= before + wave(queues_goal, team_order@, k as int, t as nat));
        }
        k += 1;
    }
    order
}

/// What the powers of 10 are taken of that [`compute_start_order`] needs: a
/// hundredth of the first frequencies of all other teams together.
pub open spec fn exponents(firsts: Seq<i64>) -> Seq<Real> {
    let sum = total_of(firsts.map_values(|f: i64| crate::power::real_of(f as int)));
    firsts.map_values(
        |f: i64|
            sum.spec_sub(crate::power::real_of(f as int)).spec_div(crate::power::real_of(100)),
    )
}

/// The highest frequencies of teams.
pub open spec fn firsts_of(teams: Seq<Seq<(i64, i64)>>) -> Seq<i64> {
    teams.map_values(|t: Seq<(i64, i64)>| ranked(t)[0].1)
}

/// What the powers of 10 are taken of that [`compute_start_order`] needs.
#[must_use]
pub fn start_exponents(teams: &[Vec<(i64, i64)>]) -> (r: Vec<Real>)
    requires
        forall|i: int| 0 <= i < teams@.len() ==> (#[trigger] teams@[i])@.len() > 0,
    ensures
        r@ == exponents(firsts_of(members_of(teams@))),
{
    let ghost goal = firsts_of(members_of(teams@));
    let ghost reals = goal.map_values(|f: i64| crate::power::real_of(f as int));
    let mut firsts: Vec<i64> = Vec::new();
    let mut sum: Real = Real::zero();
    let mut i: usize = 0;
    assert(reals.take(0) =~= Seq::<Real>::empty());
    while i < teams.len()
        invariant
            forall|i: int| 0 <= i < teams@.len() ==> (#[trigger] teams@[i])@.len() > 0,
            goal == firsts_of(members_of(teams@)),
            reals == goal.map_values(|f: i64| crate::power::real_of(f as int)),
            i <= teams@.len(),
            firsts@ == goal.take(i as int),
            sum == total_of(reals.take(i as int)),
            sum.within(1200),
        decreases teams.len() - i,
    {
        assert(teams@[i as int]@.len() > 0);
        let queue: Vec<(i64, i64)> = rank_team(&teams[i]);
        proof {
            lemma_ranked(teams@[i as int]@);
        }
        let f: i64 = queue[0].1;
        firsts.push(f);
        sum = bound(sum.plus(Real::from_int(f)));
        assert(reals.take(i + 1).drop_last() =~= reals.take(i as int));
        i += 1;
        assert(firsts@ =~= goal.take(i as int));
    }
    assert(reals.take(i as int) =~= reals);
    assert(firsts@ =~= goal);
    let ghost all = exponents(goal);
    let mut r: Vec<Real> = Vec::new();
    let mut j: usize = 0;
    while j < firsts.len()
        invariant
            firsts@ == goal,
            all == exponents(goal),
            sum == total_of(goal.map_values(|f: i64| crate::power::real_of(f as int))),
            sum.within(1200),
            j <= firsts@.len(),
            r@ == all.take(j as int),
        decreases firsts.len() - j,
    {
        r.push(sum.minus(Real::from_int(firsts[j])).over(Real::from_int(100)));
        j += 1;
        assert(r@ =~= all.take(j as int));
    }
    assert(r@ =~= all);
    r
}

/// The fighters of a queue without their frequencies.
pub open spec fn ids(queue: Seq<(i64, i64)>) -> Seq<i64> {
    queue.map_values(|x: (i64, i64)| x.0)
}

/// The first `n` fighters of a queue.
pub open spec fn front(queue: Seq<(i64, i64)>, n: nat) -> Seq<i64> {
    if n <= queue.len() {
        ids(queue).take(n as int)
    } else {
        ids(queue)
    }
}

/// The first `n` fighters of each team of an order, together.
pub open spec fn pool(queues: Seq<Seq<(i64, i64)>>, order: Seq<usize>, n: nat) -> Multiset<i64>
    decreases order.len(),
{
    if order.len() == 0 {
        Multiset::empty()
    } else {
        pool(queues, order.drop_last(), n).add(
            front(queues[order.last() as int], n).to_multiset(),
        )
    }
}

/// All fighters of the first `n` teams, together.
pub open spec fn everyone(teams: Seq<Seq<(i64, i64)>>, n: nat) -> Multiset<i64>
    decreases n,
{
    if n == 0 {
        Multiset::empty()
    } else {
        everyone(teams, (n - 1) as nat).add(ids(teams[n - 1]).to_multiset())
    }
}

/// A draw picks one of the remaining teams.
proof fn lemma_drawn(remaining: Seq<usize>, probas: Seq<Real>, v: Real, i: int)
    requires
        0 <= i < remaining.len(),
    ensures
        i <= drawn(remaining, probas, v, i) < remaining.len(),
    decreases remaining.len() - i,
{
    if i < remaining.len() - 1 && probas[remaining[i] as int].spec_less(v) {
        lemma_drawn(
            remaining,
            probas,
            bounded(v.spec_sub(probas[remaining[i] as int])),
            i + 1,
        );
    }
}

/// Every team is drawn once.
pub proof fn lemma_draws_each_team(remaining: Seq<usize>, probas: Seq<Real>, n: int)
    ensures
        draw_order(remaining, probas, n).to_multiset() == remaining.to_multiset(),
        draw_order(remaining, probas, n).len() == remaining.len(),
    decreases remaining.len(),
{
    broadcast use vstd::seq_lib::group_to_multiset_ensures;

    if remaining.len() > 0 {
        let next = crate::rng::successor(n);
        let v = crate::power::chance(crate::rng::fraction(next));
        lemma_drawn(remaining, probas, v, 0);
        let i = drawn(remaining, probas, v, 0);
        let left = bounded(crate::power::one().spec_sub(probas[remaining[i] as int]));
        let rest = draw_order(remaining.remove(i), shares(probas, left), next);
        lemma_draws_each_team(remaining.remove(i), shares(probas, left), next);
        let head = seq![remaining[i]];
        vstd::seq_lib::lemma_multiset_commutative(head, rest);
        assert(head =~= Seq::<usize>::empty().push(remaining[i]));
        assert(Seq::<usize>::empty().to_multiset() =~= Multiset::<usize>::empty());
        assert(head.to_multiset() =~= Multiset::<usize>::empty().insert(remaining[i]));
        assert(remaining.remove(i).to_multiset() =~= remaining.to_multiset().remove(remaining[i]));
        assert(remaining.contains(remaining[i]));
        assert(remaining.to_multiset().count(remaining[i]) > 0);
        assert((head + rest).to_multiset() =~= remaining.to_multiset());
    } else {
        assert(draw_order(remaining, probas, n) =~= remaining);
    }
}

/// One more fighter of a queue.
proof fn lemma_front_grows(queue: Seq<(i64, i64)>, k: nat)
    ensures
        k < queue.len() ==> front(queue, k + 1).to_multiset() == front(
            queue,
            k,
        ).to_multiset().insert(queue[k as int].0),
        k >= queue.len() ==> front(queue, k + 1) == front(queue, k),
{
    broadcast use vstd::seq_lib::group_to_multiset_ensures;

    if k < queue.len() {
        assert(front(queue, k + 1) =~= front(queue, k).push(queue[k as int].0));
    } else {
        assert(ids(queue).take(queue.len() as int) =~= ids(queue));
    }
}

/// A wave is the next fighter of each team.
proof fn lemma_wave_pool(queues: Seq<Seq<(i64, i64)>>, order: Seq<usize>, k: nat, n: nat)
    requires
        n <= order.len(),
    ensures
        pool(queues, order.take(n as int), k + 1) == pool(queues, order.take(n as int), k).add(
            wave(queues, order, k as int, n).to_multiset(),
        ),
    decreases n,
{
    broadcast use vstd::seq_lib::group_to_multiset_ensures;

    if n == 0 {
        assert(wave(queues, order, k as int, 0).to_multiset() =~= Multiset::<i64>::empty());
        assert(pool(queues, order.take(0), k + 1) =~= pool(queues, order.take(0), k).add(
            Multiset::<i64>::empty(),
        ));
    } else {
        lemma_wave_pool(queues, order, k, (n - 1) as nat);
        let queue = queues[order[n - 1] as int];
        lemma_front_grows(queue, k);
        assert(order.take(n as int).drop_last() =~= order.take(n - 1));
        let before = wave(queues, order, k as int, (n - 1) as nat);
        assert(pool(queues, order.take(n as int), k + 1) =~= pool(
            queues,
            order.take(n as int),
            k,
        ).add(wave(queues, order, k as int, n).to_multiset())) by {
            if k < queue.len() {
                assert(before.push(queue[k as int].0).to_multiset()
                    =~= before.to_multiset().insert(queue[k as int].0));
            }
        }
    }
}

/// Waves are the first fighters of each team.
proof fn lemma_waves_pool(queues: Seq<Seq<(i64, i64)>>, order: Seq<usize>, n: nat)
    ensures
        waves(queues, order, n).to_multiset() == pool(queues, order, n),
    decreases n,
{
    broadcast use vstd::seq_lib::group_to_multiset_ensures;

    assert(order.take(order.len() as int) =~= order);
    if n == 0 {
        assert(waves(queues, order, 0).to_multiset() =~= Multiset::<i64>::empty());
        lemma_pool_of_none(queues, order);
    } else {
        lemma_waves_pool(queues, order, (n - 1) as nat);
        lemma_wave_pool(queues, order, (n - 1) as nat, order.len());
        vstd::seq_lib::lemma_multiset_commutative(
            waves(queues, order, (n - 1) as nat),
            wave(queues, order, n - 1, order.len()),
        );
    }
}

proof fn lemma_pool_of_none(queues: Seq<Seq<(i64, i64)>>, order: Seq<usize>)
    ensures
        pool(queues, order, 0) == Multiset::<i64>::empty(),
    decreases order.len(),
{
    broadcast use vstd::seq_lib::group_to_multiset_ensures;

    if order.len() > 0 {
        lemma_pool_of_none(queues, order.drop_last());
        let f = front(queues[order.last() as int], 0);
        assert(f =~= Seq::<i64>::empty());
        assert(f.to_multiset() =~= Multiset::<i64>::empty());
        assert(pool(queues, order, 0) =~= Multiset::<i64>::empty());
    }
}

/// A team can be taken out of a pool wherever it stands.
proof fn lemma_pool_remove(queues: Seq<Seq<(i64, i64)>>, order: Seq<usize>, n: nat, i: int)
    requires
        0 <= i < order.len(),
    ensures
        pool(queues, order, n) == pool(queues, order.remove(i), n).add(
            front(queues[order[i] as int], n).to_multiset(),
        ),
    decreases order.len(),
{
    if i == order.len() - 1 {
        assert(order.remove(i) =~= order.drop_last());
    } else {
        lemma_pool_remove(queues, order.drop_last(), n, i);
        assert(order.remove(i).drop_last() =~= order.drop_last().remove(i));
        assert(order.remove(i).last() == order.last());
        assert(pool(queues, order, n) =~= pool(queues, order.remove(i), n).add(
            front(queues[order[i] as int], n).to_multiset(),
        ));
    }
}

/// The order of the teams does not matter for who is in a pool.
proof fn lemma_pool_order(queues: Seq<Seq<(i64, i64)>>, a: Seq<usize>, b: Seq<usize>, n: nat)
    requires
        a.to_multiset() == b.to_multiset(),
    ensures
        pool(queues, a, n) == pool(queues, b, n),
    decreases a.len(),
{
    broadcast use vstd::seq_lib::group_to_multiset_ensures;

    assert(a.to_multiset().len() == a.len());
    assert(b.to_multiset().len() == b.len());
    if a.len() > 0 {
        let x = a.last();
        assert(a.contains(x));
        assert(a.to_multiset().count(x) > 0);
        assert(b.contains(x));
        let j = choose|j: int| 0 <= j < b.len() && b[j] == x;
        lemma_pool_remove(queues, b, n, j);
        lemma_pool_remove(queues, a, n, a.len() - 1);
        let a1 = a.remove(a.len() - 1);
        let b1 = b.remove(j);
        assert(a1.to_multiset() =~= b1.to_multiset());
        lemma_pool_order(queues, a1, b1, n);
    }
}

/// A ranking has the fighters of the team.
proof fn lemma_ranked_ids(team: Seq<(i64, i64)>)
    ensures
        ids(ranked(team)).to_multiset() == ids(team).to_multiset(),
    decreases team.len(),
{
    broadcast use vstd::seq_lib::group_to_multiset_ensures;

    if team.len() > 0 {
        let before = ranked(team.drop_last());
        let x = team.last();
        lemma_ranked_ids(team.drop_last());
        lemma_rank(before, x.1);
        let at = rank_of(before, x.1);
        let after = ids(before.insert(at, x));
        assert(after.remove(at) =~= ids(before));
        assert(after[at] == x.0);
        assert(after.contains(x.0));
        assert(after.to_multiset().count(x.0) > 0);
        assert(after.remove(at).to_multiset() =~= after.to_multiset().remove(after[at]));
        assert(ids(team) =~= ids(team.drop_last()).push(x.0));
        assert(after.to_multiset() =~= ids(team).to_multiset());
    }
}

/// Long enough, a pool of all teams holds everyone.
proof fn lemma_pool_everyone(teams: Seq<Seq<(i64, i64)>>, n: nat, long: nat)
    requires
        n <= teams.len() <= usize::MAX,
        long >= longest(queues_of(teams), teams.len()),
    ensures
        pool(queues_of(teams), indices(n), long) == everyone(teams, n),
    decreases n,
{
    let queues = queues_of(teams);
    if n > 0 {
        lemma_pool_everyone(teams, (n - 1) as nat, long);
        assert(indices(n).drop_last() =~= indices((n - 1) as nat));
        lemma_longest(queues, queues.len(), n - 1);
        let queue = queues[n - 1];
        lemma_ranked_ids(teams[n - 1]);
        assert(front(queue, long) =~= ids(queue));
    }
}

pub(crate) proof fn lemma_longest(queues: Seq<Seq<(i64, i64)>>, n: nat, i: int)
    requires
        0 <= i < n <= queues.len(),
    ensures
        queues[i].len() <= longest(queues, n),
    decreases n,
{
    if i < n - 1 {
        lemma_longest(queues, (n - 1) as nat, i);
    }
}

/// Everyone begins once: the order holds the fighters of all teams, and each
/// as often as the teams do.
pub proof fn lemma_everyone_begins_once(teams: Seq<Seq<(i64, i64)>>, weights: Seq<Real>, n: int)
    requires
        teams.len() <= usize::MAX,
    ensures
        start_order(teams, weights, n).to_multiset() == everyone(teams, teams.len()),
{
    let queues = queues_of(teams);
    let order = draw_order(indices(teams.len()), chances(weights), n);
    let long = longest(queues, queues.len());
    lemma_draws_each_team(indices(teams.len()), chances(weights), n);
    lemma_waves_pool(queues, order, long);
    lemma_pool_order(queues, order, indices(teams.len()), long);
    lemma_pool_everyone(teams, teams.len(), long);
}

/// Whoever is among everyone is in a team.
proof fn lemma_everyone_has_a_team(teams: Seq<Seq<(i64, i64)>>, n: nat, x: i64)
    requires
        n <= teams.len(),
        everyone(teams, n).count(x) > 0,
    ensures
        exists|t: int, j: int|
            0 <= t < n && 0 <= j < teams[t].len() && (#[trigger] teams[t][j]).0 == x,
    decreases n,
{
    broadcast use vstd::seq_lib::group_to_multiset_ensures;

    if n > 0 {
        let own = ids(teams[n - 1]);
        if own.to_multiset().count(x) > 0 {
            assert(own.contains(x));
            let j = choose|j: int| 0 <= j < own.len() && own[j] == x;
            assert(teams[n - 1][j].0 == x);
        } else {
            lemma_everyone_has_a_team(teams, (n - 1) as nat, x);
        }
    }
}

/// Whoever begins is in a team.
pub proof fn lemma_beginners_have_a_team(
    teams: Seq<Seq<(i64, i64)>>,
    weights: Seq<Real>,
    n: int,
    i: int,
)
    requires
        teams.len() <= usize::MAX,
        0 <= i < start_order(teams, weights, n).len(),
    ensures
        exists|t: int, j: int|
            0 <= t < teams.len() && 0 <= j < teams[t].len() && (#[trigger] teams[t][j]).0
                == start_order(teams, weights, n)[i],
{
    broadcast use vstd::seq_lib::group_to_multiset_ensures;

    lemma_everyone_begins_once(teams, weights, n);
    let order = start_order(teams, weights, n);
    assert(order.contains(order[i]));
    lemma_everyone_has_a_team(teams, teams.len(), order[i]);
}

} // verus!
