//! Who opens a fight on a plain grid.

use crate::fight::{Fight, FightView};
use crate::number::Real;
use crate::order::{compute_start_order, DEFAULT_FREQUENCY};
use crate::rng::OfficialRng;
use vstd::prelude::*;

verus! {

/// A seed with its bits stirred, so that small seeds give draws from the
/// whole range.
pub open spec fn mixed(seed: u64) -> u64 {
    let a = seed.wrapping_add(0x9E37_79B9_7F4A_7C15);
    let b = (a ^ (a >> 30u64)).wrapping_mul(0xBF58_476D_1CE4_E5B9);
    let c = (b ^ (b >> 27u64)).wrapping_mul(0x94D0_49BB_1331_11EB);
    c ^ (c >> 31u64)
}

/// The state of the random stream from which the order is drawn: the bits of
/// the stirred seed as a signed number.
#[must_use]
pub fn start_order_seed(seed: u64) -> (s: i64)
    ensures
        s == crate::rng::wrap64(mixed(seed) as int),
{
    let a: u64 = seed.wrapping_add(0x9E37_79B9_7F4A_7C15);
    let b: u64 = (a ^ (a >> 30u64)).wrapping_mul(0xBF58_476D_1CE4_E5B9);
    let c: u64 = (b ^ (b >> 27u64)).wrapping_mul(0x94D0_49BB_1331_11EB);
    let z: u64 = c ^ (c >> 31u64);
    if z < 0x8000_0000_0000_0000 {
        z as i64
    } else {
        -((u64::MAX - z) as i64) - 1
    }
}

/// A team and its members.
#[verifier::ext_equal]
pub struct Band {
    pub team: i64,
    pub members: Seq<(i64, i64)>,
}

/// Where a team stands in a list.
pub open spec fn band_of(bands: Seq<Band>, team: i64) -> Option<int>
    decreases bands.len(),
{
    if bands.len() == 0 {
        None
    } else {
        match band_of(bands.drop_last(), team) {
            Some(i) => Some(i),
            None => if bands.last().team == team {
                Some(bands.len() - 1)
            } else {
                None
            },
        }
    }
}

/// The teams after one more entity has joined its own.
pub open spec fn joined(bands: Seq<Band>, team: i64, id: i64) -> Seq<Band> {
    let member = (id, DEFAULT_FREQUENCY);
    match band_of(bands, team) {
        Some(i) => bands.update(
            i,
            Band { members: bands[i].members.push(member), ..bands[i] },
        ),
        None => bands.push(Band { team, members: seq![member] }),
    }
}

impl FightView {
    /// The team of an entity; 0 for one that is not there.
    pub open spec fn side_of(self, id: i64) -> i64 {
        match self.team_of(id) {
            Some(t) => t,
            None => 0,
        }
    }

    /// Entities grouped by teams, both in the order in which they come.
    pub open spec fn bands(self, ids: Seq<i64>) -> Seq<Band>
        decreases ids.len(),
    {
        if ids.len() == 0 {
            Seq::empty()
        } else {
            joined(self.bands(ids.drop_last()), self.side_of(ids.last()), ids.last())
        }
    }

    /// Those of a list who are in a team, in its order.
    pub open spec fn of_team(self, ids: Seq<i64>, team: i64) -> Seq<i64>
        decreases ids.len(),
    {
        if ids.len() == 0 {
            Seq::empty()
        } else if self.side_of(ids.last()) == team {
            self.of_team(ids.drop_last(), team).push(ids.last())
        } else {
            self.of_team(ids.drop_last(), team)
        }
    }

    /// The order in which the living begin: that of equal teams, from the
    /// stirred seed of the fight.
    pub open spec fn opening(self) -> Seq<i64> {
        let bands = self.bands(crate::fight::numbers_of(self.entities, true));
        crate::order::start_order(
            bands.map_values(|b: Band| b.members),
            even(bands.len()),
            crate::rng::wrap64(mixed(self.seed) as int),
        )
    }
}

/// 10 to a power, by repeated products of doubles.
pub open spec fn ten_to(n: nat) -> Real
    decreases n,
{
    if n == 0 {
        crate::power::one()
    } else {
        crate::order::bounded(
            ten_to((n - 1) as nat).spec_mul(crate::power::real_of(10)),
        )
    }
}

/// The weights of the others for each of some teams of which all have the
/// frequency that is taken where none is known: it goes a hundredfold into
/// itself, so that each other team counts for one power of 10.
pub open spec fn even(n: nat) -> Seq<Real> {
    Seq::new(n, |i: int| ten_to((n - 1) as nat))
}

/// Where a team stands in a list.
fn find_band(teams: &Vec<i64>, bands: Ghost<Seq<Band>>, team: i64) -> (at: Option<usize>)
    requires
        teams@ == bands@.map_values(|b: Band| b.team),
    ensures
        match at {
            Some(k) => band_of(bands@, team) == Some(k as int),
            None => band_of(bands@, team) is None,
        },
        at matches Some(k) ==> k < teams@.len(),
{
    let mut i: usize = 0;
    while i < teams.len()
        invariant
            i <= teams@.len(),
            teams@ == bands@.map_values(|b: Band| b.team),
            band_of(bands@.take(i as int), team) is None,
        decreases teams.len() - i,
    {
        proof {
            assert(bands@.take(i + 1).drop_last() =~= bands@.take(i as int));
        }
        if teams[i] == team {
            proof {
                lemma_band_stays(bands@, team, i + 1);
            }
            return Some(i);
        }
        i += 1;
    }
    assert(bands@.take(i as int) =~= bands@);
    None
}

/// The first place of a team in a list is its place in a longer one.
proof fn lemma_band_stays(bands: Seq<Band>, team: i64, n: int)
    requires
        0 <= n <= bands.len(),
        band_of(bands.take(n), team) is Some,
    ensures
        band_of(bands, team) == band_of(bands.take(n), team),
    decreases bands.len(),
{
    if n < bands.len() {
        assert(bands.drop_last().take(n) =~= bands.take(n));
        lemma_band_stays(bands.drop_last(), team, n);
    } else {
        assert(bands.take(n) =~= bands);
    }
}

/// The place of a team in a list is one.
proof fn lemma_band(bands: Seq<Band>, team: i64)
    ensures
        band_of(bands, team) matches Some(i) ==> 0 <= i < bands.len(),
    decreases bands.len(),
{
    if bands.len() > 0 {
        lemma_band(bands.drop_last(), team);
    }
}

/// 10 to a power.
fn power_of_ten(n: usize) -> (r: Real)
    ensures
        r == ten_to(n as nat),
        r.within(1200),
{
    let ten: Real = Real::from_int(10);
    let mut r: Real = crate::power::exec_one();
    let mut i: usize = 0;
    while i < n
        invariant
            i <= n,
            ten == crate::power::real_of(10),
            ten.within(1200),
            r == ten_to(i as nat),
            r.within(1200),
        decreases n - i,
    {
        r = crate::order::bound(r.mul(ten));
        i += 1;
    }
    r
}

/// The order in which the living entities of a fight begin: teams and their
/// members come as they were set up, every team weighs the same, and the draw
/// is made from the seed of the fight, with numbers of its own.
#[must_use]
pub fn fight_start_order(fight: &Fight) -> (order: Vec<i64>)
    ensures
        order@ == fight@.opening(),
{
    let ghost f = fight@;
    let ids: Vec<i64> = fight.entities(true);
    let mut teams: Vec<i64> = Vec::new();
    let mut members: Vec<Vec<(i64, i64)>> = Vec::new();
    let ghost mut bands: Seq<Band> = Seq::empty();
    let mut i: usize = 0;
    assert(ids@.take(0) =~= Seq::<i64>::empty());
    assert(teams@ =~= bands.map_values(|b: Band| b.team));
    while i < ids.len()
        invariant
            f == fight@,
            i <= ids@.len(),
            bands == f.bands(ids@.take(i as int)),
            teams@ == bands.map_values(|b: Band| b.team),
            members@.len() == bands.len(),
            forall|j: int|
                0 <= j < bands.len() ==> (#[trigger] members@[j])@ == bands[j].members,
        decreases ids.len() - i,
    {
        let ghost before = bands;
        let id: i64 = ids[i];
        let team: i64 = match fight.team(id) {
            Some(t) => t,
            None => 0,
        };
        proof {
            assert(ids@.take(i + 1).drop_last() =~= ids@.take(i as int));
            lemma_band(bands, team);
            bands = joined(bands, team, id);
        }
        match find_band(&teams, Ghost(before), team) {
            Some(k) => {
                assert(members@[k as int]@ == before[k as int].members);
                members[k].push((id, DEFAULT_FREQUENCY));
            },
            None => {
                let mut band: Vec<(i64, i64)> = Vec::new();
                band.push((id, DEFAULT_FREQUENCY));
                assert(band@ =~= seq![(id, DEFAULT_FREQUENCY)]);
                teams.push(team);
                members.push(band);
            },
        }
        assert(teams@ =~= bands.map_values(|b: Band| b.team));
        i += 1;
    }
    assert(ids@.take(i as int) =~= ids@);
    let n: usize = members.len();
    let mut weights: Vec<Real> = Vec::new();
    if n > 0 {
        let weight: Real = power_of_ten(n - 1);
        let mut j: usize = 0;
        while j < n
            invariant
                j <= n,
                n > 0,
                weight == ten_to((n - 1) as nat),
                weight.within(1200),
                weights@.len() == j,
                forall|k: int| 0 <= k < j ==> #[trigger] weights@[k] == weight,
            decreases n - j,
        {
            weights.push(weight);
            j += 1;
        }
    }
    assert(weights@ =~= even(n as nat));
    assert(crate::order::members_of(members@) =~= bands.map_values(|b: Band| b.members));
    let mut rng: OfficialRng = OfficialRng::new(start_order_seed(fight.seed()));
    compute_start_order(members.as_slice(), weights.as_slice(), &mut rng)
}

/// One more member in a team is one more among everyone.
proof fn lemma_one_more(teams: Seq<Seq<(i64, i64)>>, i: int, member: (i64, i64), n: nat)
    requires
        0 <= i < n <= teams.len(),
    ensures
        crate::order::everyone(teams.update(i, teams[i].push(member)), n)
            == crate::order::everyone(teams, n).insert(member.0),
    decreases n,
{
    broadcast use vstd::seq_lib::group_to_multiset_ensures;

    let more = teams.update(i, teams[i].push(member));
    if i == n - 1 {
        lemma_others_stay(teams, i, teams[i].push(member), (n - 1) as nat);
        let own = crate::order::ids(teams[i]);
        assert(crate::order::ids(more[i]) =~= own.push(member.0));
        vstd::seq_lib::to_multiset_build(own, member.0);
        assert(crate::order::everyone(more, n) =~= crate::order::everyone(teams, n).insert(
            member.0,
        ));
    } else {
        lemma_one_more(teams, i, member, (n - 1) as nat);
        assert(more[n - 1] == teams[n - 1]);
        assert(crate::order::everyone(more, n) =~= crate::order::everyone(teams, n).insert(
            member.0,
        ));
    }
}

/// The first teams do not change with a later one.
proof fn lemma_others_stay(
    teams: Seq<Seq<(i64, i64)>>,
    i: int,
    team: Seq<(i64, i64)>,
    n: nat,
)
    requires
        n <= i < teams.len(),
    ensures
        crate::order::everyone(teams.update(i, team), n) == crate::order::everyone(teams, n),
    decreases n,
{
    if n > 0 {
        lemma_others_stay(teams, i, team, (n - 1) as nat);
        assert(teams.update(i, team)[n - 1] == teams[n - 1]);
    }
}

/// A team behind the others does not change them.
proof fn lemma_first_teams(teams: Seq<Seq<(i64, i64)>>, team: Seq<(i64, i64)>, n: nat)
    requires
        n <= teams.len(),
    ensures
        crate::order::everyone(teams.push(team), n) == crate::order::everyone(teams, n),
    decreases n,
{
    if n > 0 {
        lemma_first_teams(teams, team, (n - 1) as nat);
        assert(teams.push(team)[n - 1] == teams[n - 1]);
    }
}

/// Grouping by teams loses nobody and doubles nobody.
proof fn lemma_bands_hold_all(f: FightView, ids: Seq<i64>)
    ensures
        ({
            let teams = f.bands(ids).map_values(|b: Band| b.members);
            &&& teams.len() <= ids.len()
            &&& crate::order::everyone(teams, teams.len()) == ids.to_multiset()
        }),
    decreases ids.len(),
{
    broadcast use vstd::seq_lib::group_to_multiset_ensures;

    if ids.len() == 0 {
        assert(ids.to_multiset() =~= vstd::multiset::Multiset::<i64>::empty());
    } else {
        let rest = ids.drop_last();
        let id = ids.last();
        let team = f.side_of(id);
        let before = f.bands(rest);
        let old_teams = before.map_values(|b: Band| b.members);
        let teams = f.bands(ids).map_values(|b: Band| b.members);
        lemma_bands_hold_all(f, rest);
        lemma_band(before, team);
        assert(ids =~= rest.push(id));
        vstd::seq_lib::to_multiset_build(rest, id);
        let member = (id, DEFAULT_FREQUENCY);
        match band_of(before, team) {
            Some(i) => {
                assert(teams =~= old_teams.update(i, old_teams[i].push(member)));
                lemma_one_more(old_teams, i, member, old_teams.len());
            },
            None => {
                let own = seq![member];
                assert(teams =~= old_teams.push(own));
                lemma_first_teams(old_teams, own, old_teams.len());
                assert(crate::order::ids(own) =~= Seq::<i64>::empty().push(id));
                vstd::seq_lib::to_multiset_build(Seq::<i64>::empty(), id);
                assert(crate::order::everyone(teams, teams.len())
                    =~= crate::order::everyone(old_teams, old_teams.len()).insert(id));
            },
        }
    }
}

/// Every living entity begins once, and nobody else does.
pub proof fn lemma_the_living_begin_once(f: FightView)
    requires
        f.entities.len() <= usize::MAX,
    ensures
        f.opening().to_multiset() == crate::fight::numbers_of(f.entities, true).to_multiset(),
{
    let ids = crate::fight::numbers_of(f.entities, true);
    lemma_numbers_len(f.entities);
    lemma_bands_hold_all(f, ids);
    let bands = f.bands(ids);
    crate::order::lemma_everyone_begins_once(
        bands.map_values(|b: Band| b.members),
        even(bands.len()),
        crate::rng::wrap64(mixed(f.seed) as int),
    );
}

/// Those of a team in two lists, one behind the other.
proof fn lemma_of_team_joined(f: FightView, a: Seq<i64>, b: Seq<i64>, team: i64)
    ensures
        f.of_team(a + b, team) == f.of_team(a, team) + f.of_team(b, team),
    decreases b.len(),
{
    if b.len() == 0 {
        assert(a + b =~= a);
        assert(f.of_team(a, team) + f.of_team(b, team) =~= f.of_team(a, team));
    } else {
        lemma_of_team_joined(f, a, b.drop_last(), team);
        assert((a + b).drop_last() =~= a + b.drop_last());
        assert((a + b).last() == b.last());
        if f.side_of(b.last()) == team {
            assert(f.of_team(a, team) + f.of_team(b.drop_last(), team).push(b.last()) =~= (
            f.of_team(a, team) + f.of_team(b.drop_last(), team)).push(b.last()));
        }
    }
}

/// Members of equal frequency keep their order in a ranking.
proof fn lemma_equals_keep_their_order(members: Seq<(i64, i64)>)
    requires
        forall|i: int| 0 <= i < members.len() ==> (#[trigger] members[i]).1 == DEFAULT_FREQUENCY,
    ensures
        crate::order::ranked(members) == members,
    decreases members.len(),
{
    if members.len() > 0 {
        let rest = members.drop_last();
        assert forall|i: int| 0 <= i < rest.len() implies (#[trigger] rest[i]).1
            == DEFAULT_FREQUENCY by {
            assert(rest[i] == members[i]);
        }
        lemma_equals_keep_their_order(rest);
        assert(members.last() == members[members.len() - 1]);
        if rest.len() > 0 {
            assert(rest.last() == rest[rest.len() - 1]);
        }
        assert(rest.insert(rest.len() as int, members.last()) =~= members);
    }
}

/// What the place of a team says.
proof fn lemma_band_team(bands: Seq<Band>, team: i64)
    ensures
        match band_of(bands, team) {
            Some(i) => 0 <= i < bands.len() && bands[i].team == team,
            None => forall|i: int| 0 <= i < bands.len() ==> (#[trigger] bands[i]).team != team,
        },
    decreases bands.len(),
{
    if bands.len() > 0 {
        lemma_band_team(bands.drop_last(), team);
        if band_of(bands, team) is None {
            assert forall|i: int| 0 <= i < bands.len() implies (#[trigger] bands[i]).team
                != team by {
                if i < bands.len() - 1 {
                    assert(bands.drop_last()[i] == bands[i]);
                }
            }
        }
    }
}

/// The band of a team holds those of the team as they come, with one
/// frequency for all.
spec fn band_holds(f: FightView, b: Band, ids: Seq<i64>) -> bool {
    &&& crate::order::ids(b.members) == f.of_team(ids, b.team)
    &&& forall|j: int|
        0 <= j < b.members.len() ==> (#[trigger] b.members[j]).1 == DEFAULT_FREQUENCY
            && f.side_of(b.members[j].0) == b.team
}

/// Grouping keeps the members of each team in their order, has one band for
/// each team, and none without members.
proof fn lemma_bands_keep_order(f: FightView, ids: Seq<i64>)
    ensures
        forall|i: int|
            0 <= i < f.bands(ids).len() ==> band_holds(f, #[trigger] f.bands(ids)[i], ids),
        forall|i: int, j: int|
            0 <= i < j < f.bands(ids).len() ==> (#[trigger] f.bands(ids)[i]).team != (
            #[trigger] f.bands(ids)[j]).team,
        forall|team: i64| #[trigger]
            f.of_team(ids, team).len() > 0 ==> band_of(f.bands(ids), team) is Some,
    decreases ids.len(),
{
    if ids.len() > 0 {
        let rest = ids.drop_last();
        let id = ids.last();
        let team = f.side_of(id);
        let before = f.bands(rest);
        let after = f.bands(ids);
        let member = (id, DEFAULT_FREQUENCY);
        lemma_bands_keep_order(f, rest);
        lemma_band_team(before, team);
        match band_of(before, team) {
            Some(k) => {
                assert forall|i: int| 0 <= i < after.len() implies band_holds(
                    f,
                    #[trigger] after[i],
                    ids,
                ) by {
                    assert(band_holds(f, before[i], rest));
                    if i == k {
                        let b = before[k];
                        assert(after[k].members == b.members.push(member));
                        assert(crate::order::ids(after[k].members) =~= crate::order::ids(
                            b.members,
                        ).push(id));
                    } else if i < k {
                        assert(before[i].team != before[k].team);
                    } else {
                        assert(before[k].team != before[i].team);
                    }
                }
                assert forall|i: int, j: int| 0 <= i < j < after.len() implies (
                #[trigger] after[i]).team != (#[trigger] after[j]).team by {
                    assert(before[i].team != before[j].team);
                }
            },
            None => {
                assert forall|i: int| 0 <= i < after.len() implies band_holds(
                    f,
                    #[trigger] after[i],
                    ids,
                ) by {
                    if i < before.len() {
                        assert(band_holds(f, before[i], rest));
                        assert(before[i].team != team);
                    } else {
                        assert(f.of_team(rest, team).len() == 0);
                        assert(f.of_team(rest, team) =~= Seq::<i64>::empty());
                        assert(crate::order::ids(seq![member]) =~= Seq::<i64>::empty().push(id));
                    }
                }
                assert forall|i: int, j: int| 0 <= i < j < after.len() implies (
                #[trigger] after[i]).team != (#[trigger] after[j]).team by {
                    assert(after[i] == before[i]);
                    if j < before.len() {
                        assert(after[j] == before[j]);
                    }
                }
            },
        }
        assert forall|t: i64| #[trigger] f.of_team(ids, t).len() > 0 implies band_of(
            after,
            t,
        ) is Some by {
            lemma_band_team(after, t);
            lemma_band_team(before, t);
            if t == team {
                match band_of(before, team) {
                    Some(k) => {
                        assert(after[k].team == team);
                    },
                    None => {
                        assert(after[before.len() as int].team == team);
                    },
                }
            } else {
                assert(f.of_team(rest, t).len() > 0);
                let k = band_of(before, t).unwrap();
                assert(after[k].team == t);
            }
        }
    }
}

/// Whether the queue `t` is that of a team, and no other queue holds anybody
/// of it.
spec fn queue_of_team(f: FightView, queues: Seq<Seq<(i64, i64)>>, t: int, team: i64) -> bool {
    forall|s: int, j: int|
        0 <= s < queues.len() && 0 <= j < queues[s].len() ==> (f.side_of(
            (#[trigger] queues[s][j]).0,
        ) == team <==> s == t)
}

/// A wave holds at most one of a team.
proof fn lemma_wave_of_team(
    f: FightView,
    queues: Seq<Seq<(i64, i64)>>,
    order: Seq<usize>,
    k: int,
    n: nat,
    t: int,
    team: i64,
)
    requires
        queue_of_team(f, queues, t, team),
        order.no_duplicates(),
        n <= order.len(),
        0 <= k,
        forall|i: int| 0 <= i < order.len() ==> #[trigger] order[i] < queues.len(),
    ensures
        f.of_team(crate::order::wave(queues, order, k, n), team) == (if 0 <= t < queues.len()
            && order.take(n as int).contains(t as usize) && t as usize == t && k < queues[t].len() {
            seq![queues[t][k].0]
        } else {
            Seq::empty()
        }),
    decreases n,
{
    if n > 0 {
        lemma_wave_of_team(f, queues, order, k, (n - 1) as nat, t, team);
        let before = crate::order::wave(queues, order, k, (n - 1) as nat);
        let s = order[n - 1] as int;
        let queue = queues[s];
        let first = order.take(n - 1);
        let now = order.take(n as int);
        assert(now =~= first.push(order[n - 1]));
        assert(now.last() == order[n - 1]);
        assert(now[n - 1] == order[n - 1]);
        if k < queue.len() {
            let after = before.push(queue[k].0);
            assert(after.drop_last() =~= before);
            assert(f.side_of(queues[s][k].0) == team <==> s == t);
        }
        if s == t {
            assert(!first.contains(t as usize)) by {
                if first.contains(t as usize) {
                    let i = choose|i: int| 0 <= i < first.len() && first[i] == t as usize;
                    assert(order[i] == order[n - 1]);
                }
            }
            assert(now.contains(t as usize));
            assert(Seq::<i64>::empty().push(queues[t][k].0) =~= seq![queues[t][k].0]);
        } else if 0 <= t < queues.len() && t as usize == t {
            if first.contains(t as usize) {
                let i = choose|i: int| 0 <= i < first.len() && first[i] == t as usize;
                assert(now[i] == t as usize);
            }
            if now.contains(t as usize) {
                let i = choose|i: int| 0 <= i < now.len() && now[i] == t as usize;
                assert(first[i] == t as usize);
            }
        }
    }
}

/// The waves hold the first of a team in their order.
proof fn lemma_waves_of_team(
    f: FightView,
    queues: Seq<Seq<(i64, i64)>>,
    order: Seq<usize>,
    n: nat,
    t: int,
    team: i64,
)
    requires
        queue_of_team(f, queues, t, team),
        order.no_duplicates(),
        forall|i: int| 0 <= i < order.len() ==> #[trigger] order[i] < queues.len(),
        0 <= t < queues.len() ==> t as usize == t && order.contains(t as usize),
    ensures
        f.of_team(crate::order::waves(queues, order, n), team) == (if 0 <= t < queues.len() {
            crate::order::front(queues[t], n)
        } else {
            Seq::empty()
        }),
    decreases n,
{
    if n > 0 {
        let a = crate::order::waves(queues, order, (n - 1) as nat);
        let b = crate::order::wave(queues, order, n - 1, order.len());
        lemma_waves_of_team(f, queues, order, (n - 1) as nat, t, team);
        lemma_wave_of_team(f, queues, order, n - 1, order.len(), t, team);
        lemma_of_team_joined(f, a, b, team);
        assert(order.take(order.len() as int) =~= order);
        if 0 <= t < queues.len() {
            let queue = queues[t];
            assert(f.of_team(a, team) + f.of_team(b, team) =~= crate::order::front(queue, n));
        }
    } else if 0 <= t < queues.len() {
        assert(crate::order::front(queues[t], 0) =~= Seq::<i64>::empty());
    }
}

/// The teams are drawn one by one, each once.
proof fn lemma_drawn_once(teams: nat, probas: Seq<Real>, n: int)
    requires
        teams <= usize::MAX,
    ensures
        ({
            let order = crate::order::draw_order(crate::order::indices(teams), probas, n);
            &&& order.no_duplicates()
            &&& forall|i: int| 0 <= i < order.len() ==> #[trigger] order[i] < teams
            &&& forall|t: usize| t < teams ==> #[trigger] order.contains(t)
        }),
{
    let all = crate::order::indices(teams);
    let order = crate::order::draw_order(all, probas, n);
    crate::order::lemma_draws_each_team(all, probas, n);
    assert(order.no_duplicates()) by {
        assert(all.no_duplicates()) by {
            assert forall|i: int, j: int| 0 <= i < all.len() && 0 <= j < all.len() && i
                != j implies all[i] != all[j] by {
                assert(all[i] == i as usize && all[j] == j as usize);
            }
        }
        all.lemma_multiset_has_no_duplicates();
        order.lemma_multiset_has_no_duplicates_conv();
    }
    assert forall|i: int| 0 <= i < order.len() implies #[trigger] order[i] < teams by {
        let x = order[i];
        vstd::seq_lib::to_multiset_contains(order, x);
        vstd::seq_lib::to_multiset_contains(all, x);
        assert(order.contains(x));
        let k = choose|k: int| 0 <= k < all.len() && all[k] == x;
        assert(all[k] == k as usize);
    }
    assert forall|t: usize| t < teams implies #[trigger] order.contains(t) by {
        vstd::seq_lib::to_multiset_contains(order, t);
        vstd::seq_lib::to_multiset_contains(all, t);
        assert(all[t as int] == t);
        assert(all.contains(t));
    }
}

/// The members of a team begin in the order in which they were set up.
pub proof fn lemma_teams_keep_their_order(f: FightView, team: i64)
    requires
        f.entities.len() <= usize::MAX,
    ensures
        f.of_team(f.opening(), team) == f.of_team(
            crate::fight::numbers_of(f.entities, true),
            team,
        ),
{
    let ids = crate::fight::numbers_of(f.entities, true);
    lemma_numbers_len(f.entities);
    lemma_bands_hold_all(f, ids);
    lemma_bands_keep_order(f, ids);
    let bands = f.bands(ids);
    let teams = bands.map_values(|b: Band| b.members);
    let queues = crate::order::queues_of(teams);
    let n = crate::rng::wrap64(mixed(f.seed) as int);
    let probas = crate::order::chances(even(bands.len()));
    let order = crate::order::draw_order(crate::order::indices(teams.len()), probas, n);
    let long = crate::order::longest(queues, queues.len());
    lemma_drawn_once(teams.len(), probas, n);
    assert forall|s: int| 0 <= s < queues.len() implies #[trigger] queues[s]
        == bands[s].members by {
        assert(band_holds(f, bands[s], ids));
        lemma_equals_keep_their_order(bands[s].members);
    }
    lemma_band_team(bands, team);
    let t: int = match band_of(bands, team) {
        Some(i) => i,
        None => -1,
    };
    assert(queue_of_team(f, queues, t, team)) by {
        assert forall|s: int, j: int| 0 <= s < queues.len() && 0 <= j < queues[s].len() implies (
        f.side_of((#[trigger] queues[s][j]).0) == team <==> s == t) by {
            assert(band_holds(f, bands[s], ids));
            assert(bands[s].members[j] == queues[s][j]);
            if s < t {
                assert(bands[s].team != bands[t].team);
            } else if t >= 0 && t < s {
                assert(bands[t].team != bands[s].team);
            } else if t < 0 {
                assert(bands[s].team != team);
            }
        }
    }
    if t >= 0 {
        assert(order.contains(t as usize));
        crate::order::lemma_longest(queues, queues.len(), t);
    }
    lemma_waves_of_team(f, queues, order, long, t, team);
    if t >= 0 {
        assert(band_holds(f, bands[t], ids));
        assert(crate::order::front(queues[t], long) =~= crate::order::ids(queues[t]));
    } else {
        assert(f.of_team(ids, team).len() == 0);
        assert(f.of_team(ids, team) =~= Seq::<i64>::empty());
    }
}

proof fn lemma_numbers_len(entities: Seq<crate::entity::EntityView>)
    ensures
        crate::fight::numbers_of(entities, true).len() <= entities.len(),
    decreases entities.len(),
{
    if entities.len() > 0 {
        lemma_numbers_len(entities.drop_last());
    }
}

} // verus!
