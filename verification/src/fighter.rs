//! Fighters and teams.

use crate::attack::EntityState;
use std::collections::{BTreeMap, BTreeSet, HashMap};
use vstd::prelude::*;

verus! {

broadcast use {
    vstd::std_specs::hash::group_hash_axioms,
    vstd::std_specs::btree::group_btree_axioms,
};

pub const STAT_LIFE: usize = 0;

pub const STAT_TP: usize = 1;

pub const STAT_MP: usize = 2;

pub const STAT_STRENGTH: usize = 3;

pub const STAT_AGILITY: usize = 4;

pub const STAT_FREQUENCY: usize = 5;

pub const STAT_WISDOM: usize = 6;

pub const STAT_ABSOLUTE_SHIELD: usize = 9;

pub const STAT_RELATIVE_SHIELD: usize = 10;

pub const STAT_RESISTANCE: usize = 11;

pub const STAT_SCIENCE: usize = 12;

pub const STAT_MAGIC: usize = 13;

pub const STAT_DAMAGE_RETURN: usize = 14;

pub const STAT_POWER: usize = 15;

pub const STAT_CORES: usize = 16;

pub const STAT_RAM: usize = 17;

/// The number of characteristics, with two that have no meaning.
pub const STAT_COUNT: usize = 18;

/// How many things a fighter may say in a turn.
pub const SAY_LIMIT_TURN: i32 = 2;

/// How many cells a fighter may point at in a turn.
pub const SHOW_LIMIT_TURN: i32 = 5;

/// How many rounds a fight may last.
pub const MAX_TURNS: i32 = 64;

/// How many living fighters a team may have summoned.
pub const SUMMON_LIMIT: usize = 8;

/// All characteristics 0.
pub open spec fn no_stats() -> Seq<i32> {
    Seq::new(STAT_COUNT as nat, |i: int| 0i32)
}

/// One characteristic changed by `delta`.
pub open spec fn shifted(stats: Seq<i32>, id: int, delta: i32) -> Seq<i32> {
    stats.update(id, stats[id].wrapping_add(delta))
}

/// Two lists of characteristics added up.
pub open spec fn summed(a: Seq<i32>, b: Seq<i32>) -> Seq<i32> {
    Seq::new(STAT_COUNT as nat, |i: int| a[i].wrapping_add(b[i]))
}

/// Characteristics by number.
#[derive(Debug, Clone, Copy, PartialEq, Eq)]
pub struct Stats {
    values: [i32; 18],
}

impl View for Stats {
    type V = Seq<i32>;

    closed spec fn view(&self) -> Seq<i32> {
        self.values@
    }
}

/// There are as many characteristics as there are numbers for them.
pub broadcast proof fn lemma_stats_len(stats: Stats)
    ensures
        #[trigger] stats@.len() == STAT_COUNT,
{
}

impl Stats {
    /// One characteristic.
    #[must_use]
    pub fn get(&self, id: usize) -> (v: i32)
        requires
            id < STAT_COUNT,
        ensures
            v == self@[id as int],
    {
        self.values[id]
    }

    /// Sets one characteristic.
    pub fn set(&mut self, id: usize, value: i32)
        requires
            id < STAT_COUNT,
        ensures
            final(self)@ == old(self)@.update(id as int, value),
    {
        self.values[id] = value;
    }

    /// Changes one characteristic by `delta`.
    pub fn update(&mut self, id: usize, delta: i32)
        requires
            id < STAT_COUNT,
        ensures
            final(self)@ == shifted(old(self)@, id as int, delta),
    {
        self.values[id] = self.values[id].wrapping_add(delta);
    }

    /// Adds other characteristics to these.
    pub fn add(&mut self, other: &Self)
        ensures
            final(self)@ == summed(old(self)@, other@),
    {
        let ghost before = self@;
        let mut i: usize = 0;
        while i < STAT_COUNT
            invariant
                i <= STAT_COUNT,
                before.len() == STAT_COUNT,
                self@.len() == STAT_COUNT,
                forall|j: int|
                    0 <= j < STAT_COUNT ==> self@[j] == (if j < i {
                        before[j].wrapping_add(other@[j])
                    } else {
                        before[j]
                    }),
            decreases STAT_COUNT - i,
        {
            self.update(i, other.get(i));
            i += 1;
        }
        assert(self@ =~= summed(before, other@));
    }

    /// Sets all characteristics to 0.
    pub fn clear(&mut self)
        ensures
            final(self)@ == no_stats(),
    {
        self.values = [0; 18];
        assert(self@ =~= no_stats());
    }
}

impl Default for Stats {
    fn default() -> (stats: Self)
        ensures
            stats@ == no_stats(),
    {
        let stats = Stats { values: [0; 18] };
        assert(stats@ =~= no_stats());
        stats
    }
}

/// What a fighter is.
#[verifier::ext_equal]
pub struct FighterView {
    pub fid: usize,
    pub id: i64,
    pub name: Seq<char>,
    pub level: i32,
    pub team: usize,
    pub farmer: i64,
    pub ai_name: Seq<char>,
    pub base_stats: Seq<i32>,
    pub buff_stats: Seq<i32>,
    pub life: i32,
    pub total_life: i32,
    pub initial_life: i32,
    pub used_tp: i32,
    pub used_mp: i32,
    pub cell: Option<usize>,
    pub weapons: Seq<i32>,
    pub weapon: Option<i32>,
    pub chips: Set<i32>,
    pub cooldowns: Map<i32, i32>,
    pub item_uses: Map<i32, i32>,
    pub effects: Seq<usize>,
    pub launched_effects: Seq<usize>,
    pub states: Seq<EntityState>,
    pub says_turn: i32,
    pub shows_turn: i32,
    pub total_operations: i64,
    pub summoner: Option<usize>,
    pub birth_turn: i32,
    pub skin: i32,
}

/// What a cooldown is counted from: -1 stands for the rest of the fight.
pub open spec fn cooldown_length(cooldown: i32) -> i32 {
    if cooldown == -1 {
        (MAX_TURNS + 2) as i32
    } else {
        cooldown
    }
}

/// Cooldowns one turn later: each is one less, and those that reach 0 are
/// gone.
pub open spec fn ticked(m: Map<i32, i32>) -> Map<i32, i32> {
    Map::new(|k: i32| m.contains_key(k) && m[k] > 1, |k: i32| (m[k] - 1) as i32)
}

/// The value of a key, or 0.
pub open spec fn or_zero(m: Map<i32, i32>, k: i32) -> i32 {
    if m.contains_key(k) {
        m[k]
    } else {
        0
    }
}

impl FighterView {
    /// A fighter at full life with nothing equipped.
    pub open spec fn fresh(
        fid: usize,
        id: i64,
        name: Seq<char>,
        team: usize,
        base_stats: Seq<i32>,
    ) -> FighterView {
        FighterView {
            fid,
            id,
            name,
            level: 1,
            team,
            farmer: 0,
            ai_name: Seq::empty(),
            base_stats,
            buff_stats: no_stats(),
            life: base_stats[STAT_LIFE as int],
            total_life: base_stats[STAT_LIFE as int],
            initial_life: base_stats[STAT_LIFE as int],
            used_tp: 0,
            used_mp: 0,
            cell: None,
            weapons: Seq::empty(),
            weapon: None,
            chips: Set::empty(),
            cooldowns: Map::empty(),
            item_uses: Map::empty(),
            effects: Seq::empty(),
            launched_effects: Seq::empty(),
            states: Seq::empty(),
            says_turn: 0,
            shows_turn: 0,
            total_operations: 0,
            summoner: None,
            birth_turn: 0,
            skin: 0,
        }
    }

    /// A characteristic: what the fighter has by itself and by effects.
    pub open spec fn stat(self, id: int) -> i32 {
        self.base_stats[id].wrapping_add(self.buff_stats[id])
    }

    pub open spec fn is_dead(self) -> bool {
        self.life <= 0
    }

    pub open spec fn is_summon(self) -> bool {
        self.summoner is Some
    }

    pub open spec fn has_state(self, state: EntityState) -> bool {
        self.states.contains(state)
    }

    /// The turn points that are left.
    pub open spec fn tp(self) -> i32 {
        self.stat(STAT_TP as int).wrapping_sub(self.used_tp)
    }

    /// The movement points that are left.
    pub open spec fn mp(self) -> i32 {
        self.stat(STAT_MP as int).wrapping_sub(self.used_mp)
    }

    pub open spec fn tp_used(self, n: i32) -> FighterView {
        FighterView { used_tp: self.used_tp.wrapping_add(n), ..self }
    }

    pub open spec fn mp_used(self, n: i32) -> FighterView {
        FighterView { used_mp: self.used_mp.wrapping_add(n), ..self }
    }

    /// How often an item was used this turn.
    pub open spec fn uses(self, id: i32) -> i32 {
        or_zero(self.item_uses, id)
    }

    /// One more use of an item.
    pub open spec fn item_used(self, id: i32) -> FighterView {
        FighterView {
            item_uses: self.item_uses.insert(id, self.uses(id).wrapping_add(1)),
            ..self
        }
    }

    /// A chip that has to cool down.
    pub open spec fn cooling(self, chip: i32, cooldown: i32) -> FighterView {
        FighterView {
            cooldowns: self.cooldowns.insert(chip, cooldown_length(cooldown)),
            ..self
        }
    }

    /// One turn less for every chip to cool down.
    pub open spec fn cooled(self) -> FighterView {
        FighterView { cooldowns: ticked(self.cooldowns), ..self }
    }

    /// What was counted for the turn is back at 0.
    pub open spec fn turn_ended(self) -> FighterView {
        FighterView {
            used_mp: 0,
            used_tp: 0,
            says_turn: 0,
            shows_turn: 0,
            item_uses: Map::empty(),
            ..self
        }
    }
}

/// A fighter.
#[derive(Debug, Clone)]
pub struct Fighter {
    /// The index of the fighter in the fight.
    pub fid: usize,
    /// The number of the entity outside of the fight.
    pub id: i64,
    pub name: String,
    pub level: i32,
    /// The index of the team.
    pub team: usize,
    pub farmer: i64,
    pub ai_name: String,
    /// What the fighter has by itself.
    pub base_stats: Stats,
    /// What the fighter has by the effects on it.
    pub buff_stats: Stats,
    pub life: i32,
    pub total_life: i32,
    pub initial_life: i32,
    pub used_tp: i32,
    pub used_mp: i32,
    /// Where the fighter stands; nowhere when it is dead.
    pub cell: Option<usize>,
    pub weapons: Vec<i32>,
    pub weapon: Option<i32>,
    pub chips: BTreeSet<i32>,
    pub cooldowns: BTreeMap<i32, i32>,
    pub item_uses: HashMap<i32, i32>,
    /// The effects on the fighter.
    pub effects: Vec<usize>,
    /// The effects that the fighter has cast.
    pub launched_effects: Vec<usize>,
    pub states: Vec<EntityState>,
    pub says_turn: i32,
    pub shows_turn: i32,
    pub total_operations: i64,
    /// Who summoned the fighter.
    pub summoner: Option<usize>,
    pub birth_turn: i32,
    pub skin: i32,
}

impl View for Fighter {
    type V = FighterView;

    open spec fn view(&self) -> FighterView {
        FighterView {
            fid: self.fid,
            id: self.id,
            name: self.name@,
            level: self.level,
            team: self.team,
            farmer: self.farmer,
            ai_name: self.ai_name@,
            base_stats: self.base_stats@,
            buff_stats: self.buff_stats@,
            life: self.life,
            total_life: self.total_life,
            initial_life: self.initial_life,
            used_tp: self.used_tp,
            used_mp: self.used_mp,
            cell: self.cell,
            weapons: self.weapons@,
            weapon: self.weapon,
            chips: self.chips@,
            cooldowns: self.cooldowns@,
            item_uses: self.item_uses@,
            effects: self.effects@,
            launched_effects: self.launched_effects@,
            states: self.states@,
            says_turn: self.says_turn,
            shows_turn: self.shows_turn,
            total_operations: self.total_operations,
            summoner: self.summoner,
            birth_turn: self.birth_turn,
            skin: self.skin,
        }
    }
}

impl Fighter {
    /// A fighter at full life with nothing equipped.
    #[must_use]
    pub fn new(fid: usize, id: i64, name: String, team: usize, base_stats: Stats) -> (f: Self)
        ensures
            f@ == FighterView::fresh(fid, id, name@, team, base_stats@),
    {
        let life: i32 = base_stats.get(STAT_LIFE);
        let f = Fighter {
            fid,
            id,
            name,
            level: 1,
            team,
            farmer: 0,
            ai_name: String::new(),
            base_stats,
            buff_stats: Stats::default(),
            life,
            total_life: life,
            initial_life: life,
            used_tp: 0,
            used_mp: 0,
            cell: None,
            weapons: Vec::new(),
            weapon: None,
            chips: BTreeSet::new(),
            cooldowns: BTreeMap::new(),
            item_uses: HashMap::new(),
            effects: Vec::new(),
            launched_effects: Vec::new(),
            states: Vec::new(),
            says_turn: 0,
            shows_turn: 0,
            total_operations: 0,
            summoner: None,
            birth_turn: 0,
            skin: 0,
        };
        assert(f@ =~= FighterView::fresh(fid, id, name@, team, base_stats@));
        f
    }

    /// Whether the fighter was summoned.
    #[must_use]
    pub fn is_summon(&self) -> (b: bool)
        ensures
            b == self@.is_summon(),
    {
        self.summoner.is_some()
    }

    /// A characteristic of the fighter.
    #[must_use]
    pub fn stat(&self, id: usize) -> (v: i32)
        requires
            id < STAT_COUNT,
        ensures
            v == self@.stat(id as int),
    {
        self.base_stats.get(id).wrapping_add(self.buff_stats.get(id))
    }

    /// Whether the fighter is dead.
    #[must_use]
    pub fn is_dead(&self) -> (b: bool)
        ensures
            b == self@.is_dead(),
    {
        self.life <= 0
    }

    /// Whether the fighter is in a state.
    #[must_use]
    pub fn has_state(&self, state: EntityState) -> (b: bool)
        ensures
            b == self@.has_state(state),
    {
        let mut i: usize = 0;
        while i < self.states.len()
            invariant
                i <= self.states@.len(),
                forall|j: int| 0 <= j < i ==> self.states@[j] != state,
            decreases self.states.len() - i,
        {
            if self.states[i] == state {
                return true;
            }
            i += 1;
        }
        false
    }

    /// The turn points that are left.
    #[must_use]
    pub fn tp(&self) -> (v: i32)
        ensures
            v == self@.tp(),
    {
        self.stat(STAT_TP).wrapping_sub(self.used_tp)
    }

    /// The movement points that are left.
    #[must_use]
    pub fn mp(&self) -> (v: i32)
        ensures
            v == self@.mp(),
    {
        self.stat(STAT_MP).wrapping_sub(self.used_mp)
    }

    /// Uses turn points.
    pub fn use_tp(&mut self, n: i32)
        ensures
            final(self)@ == old(self)@.tp_used(n),
    {
        self.used_tp = self.used_tp.wrapping_add(n);
    }

    /// Uses movement points.
    pub fn use_mp(&mut self, n: i32)
        ensures
            final(self)@ == old(self)@.mp_used(n),
    {
        self.used_mp = self.used_mp.wrapping_add(n);
    }

    /// Whether the fighter owns a weapon.
    #[must_use]
    pub fn has_weapon(&self, id: i32) -> (b: bool)
        ensures
            b == self@.weapons.contains(id),
    {
        let mut i: usize = 0;
        while i < self.weapons.len()
            invariant
                i <= self.weapons@.len(),
                forall|j: int| 0 <= j < i ==> self.weapons@[j] != id,
            decreases self.weapons.len() - i,
        {
            if self.weapons[i] == id {
                return true;
            }
            i += 1;
        }
        false
    }

    /// How often an item was used this turn.
    #[must_use]
    pub fn item_uses(&self, id: i32) -> (n: i32)
        ensures
            n == self@.uses(id),
    {
        match self.item_uses.get(&id) {
            Some(n) => *n,
            None => 0,
        }
    }

    /// Counts one more use of an item.
    pub fn add_item_use(&mut self, id: i32)
        ensures
            final(self)@ == old(self)@.item_used(id),
    {
        let n: i32 = self.item_uses(id);
        let _ = self.item_uses.insert(id, n.wrapping_add(1));
    }

    /// Makes a chip cool down; -1 is for the rest of the fight.
    pub fn add_cooldown(&mut self, chip: i32, cooldown: i32)
        ensures
            final(self)@ == old(self)@.cooling(chip, cooldown),
    {
        let v: i32 = if cooldown == -1 {
            MAX_TURNS + 2
        } else {
            cooldown
        };
        let _ = self.cooldowns.insert(chip, v);
    }

    /// Whether a chip has to cool down.
    #[must_use]
    pub fn has_cooldown(&self, chip: i32) -> (b: bool)
        ensures
            b == self@.cooldowns.contains_key(chip),
    {
        self.cooldowns.contains_key(&chip)
    }

    /// The turns that a chip has to cool down, or 0.
    #[must_use]
    pub fn cooldown(&self, chip: i32) -> (n: i32)
        ensures
            n == or_zero(self@.cooldowns, chip),
    {
        match self.cooldowns.get(&chip) {
            Some(n) => *n,
            None => 0,
        }
    }

    /// Lets a turn pass for every chip that cools down.
    pub fn apply_cooldown(&mut self)
        ensures
            final(self)@ == old(self)@.cooled(),
    {
        decrement_or_remove(&mut self.cooldowns);
    }

    /// Begins to count anew what is counted in a turn.
    pub fn end_turn(&mut self)
        ensures
            final(self)@ == old(self)@.turn_ended(),
    {
        self.used_mp = 0;
        self.used_tp = 0;
        self.says_turn = 0;
        self.shows_turn = 0;
        self.item_uses.clear();
    }
}

/// Takes one turn off every cooldown; those that reach 0 go.
pub fn decrement_or_remove(cooldowns: &mut BTreeMap<i32, i32>)
    ensures
        final(cooldowns)@ == ticked(old(cooldowns)@),
{
    let mut left: BTreeMap<i32, i32> = BTreeMap::new();
    let ghost all = cooldowns@;
    let ghost mut done: Set<i32> = Set::empty();
    for pair in it: cooldowns.iter()
        invariant
            all == cooldowns@,
            left@ =~= ticked(all.restrict(done)),
            forall|k: i32| #[trigger] done.contains(k) <==> exists|i: int|
                0 <= i < it.index() && *(#[trigger] it.seq()[i]).0 == k,
            forall|i: int|
                0 <= i < it.seq().len() ==> all.contains_key(*(#[trigger] it.seq()[i]).0)
                    && all[*it.seq()[i].0] == *it.seq()[i].1,
            forall|k: i32| #[trigger] all.contains_key(k) ==> it.seq().contains((&k, &all[k])),
            forall|i: int, j: int|
                0 <= i < j < it.seq().len() ==> #[trigger] it.seq()[i] != #[trigger] it.seq()[j],
    {
        let (k, v) = pair;
        let ghost before = done;
        proof {
            done = done.insert(*k);
            assert(!before.contains(*k)) by {
                if before.contains(*k) {
                    let i = choose|i: int|
                        0 <= i < it.index() && *(#[trigger] it.seq()[i]).0 == *k;
                    assert(it.seq()[i] == it.seq()[it.index() as int]);
                }
            }
            assert(!left@.contains_key(*k));
        }
        if *v > 1 {
            let _ = left.insert(*k, *v - 1);
        }
        proof {
            assert(left@ =~= ticked(all.restrict(done)));
        }
    }
    proof {
        assert(all.restrict(done) =~= all) by {
            assert forall|k: i32| all.contains_key(k) implies done.contains(k) by {}
        }
    }
    *cooldowns = left;
}

/// After a turn, a cooldown is one less, and a cooldown of one turn or less is
/// over.
pub proof fn lemma_cooldowns_tick(m: Map<i32, i32>, chip: i32)
    ensures
        or_zero(m, chip) > 1 ==> or_zero(ticked(m), chip) == or_zero(m, chip) - 1,
        or_zero(m, chip) <= 1 ==> !ticked(m).contains_key(chip),
{
}

/// What a team is.
#[verifier::ext_equal]
pub struct TeamView {
    pub id: i64,
    pub fighters: Seq<usize>,
    pub cooldowns: Map<i32, i32>,
}

/// The fighters of a list, as they are.
pub open spec fn views(fighters: Seq<Fighter>) -> Seq<FighterView> {
    fighters.map_values(|f: Fighter| f@)
}

/// Whether every index of a list is below `n`.
pub open spec fn all_below(list: Seq<usize>, n: int) -> bool {
    forall|i: int| 0 <= i < list.len() ==> (#[trigger] list[i]) < n
}

impl TeamView {
    /// Whether no member is alive.
    pub open spec fn is_dead(self, fighters: Seq<FighterView>) -> bool {
        forall|i: int|
            0 <= i < self.fighters.len() ==> fighters[(#[trigger] self.fighters[i]) as int].is_dead()
    }

    /// The life of the members together, summoned ones left out.
    pub open spec fn life(self, fighters: Seq<FighterView>) -> i32 {
        life_of(self.fighters, fighters)
    }

    /// How many summoned members are alive.
    pub open spec fn summon_count(self, fighters: Seq<FighterView>) -> int {
        summons_of(self.fighters, fighters)
    }

    pub open spec fn cooling(self, chip: i32, cooldown: i32) -> TeamView {
        TeamView { cooldowns: self.cooldowns.insert(chip, cooldown_length(cooldown)), ..self }
    }

    pub open spec fn cooled(self) -> TeamView {
        TeamView { cooldowns: ticked(self.cooldowns), ..self }
    }
}

pub open spec fn life_of(list: Seq<usize>, fighters: Seq<FighterView>) -> i32
    decreases list.len(),
{
    if list.len() == 0 {
        0
    } else {
        let f = fighters[list.last() as int];
        let before = life_of(list.drop_last(), fighters);
        if f.is_summon() {
            before
        } else {
            before.wrapping_add(f.life)
        }
    }
}

pub open spec fn summons_of(list: Seq<usize>, fighters: Seq<FighterView>) -> int
    decreases list.len(),
{
    if list.len() == 0 {
        0
    } else {
        let f = fighters[list.last() as int];
        summons_of(list.drop_last(), fighters) + if !f.is_dead() && f.is_summon() {
            1int
        } else {
            0int
        }
    }
}

/// A team.
#[derive(Debug, Clone, Default)]
pub struct Team {
    /// The number of the team outside of the fight.
    pub id: i64,
    /// The members, by their index.
    pub fighters: Vec<usize>,
    /// The chips that cool down for the whole team.
    pub cooldowns: BTreeMap<i32, i32>,
}

impl View for Team {
    type V = TeamView;

    open spec fn view(&self) -> TeamView {
        TeamView { id: self.id, fighters: self.fighters@, cooldowns: self.cooldowns@ }
    }
}

impl Team {
    /// A team without members.
    #[must_use]
    pub fn with_id(id: i64) -> (t: Self)
        ensures
            t@ == (TeamView { id, fighters: Seq::empty(), cooldowns: Map::empty() }),
    {
        let t = Team { id, fighters: Vec::new(), cooldowns: BTreeMap::new() };
        assert(t@ =~= (TeamView { id, fighters: Seq::empty(), cooldowns: Map::empty() }));
        t
    }

    /// Whether no member is alive.
    #[must_use]
    pub fn is_dead(&self, fighters: &[Fighter]) -> (b: bool)
        requires
            all_below(self@.fighters, fighters@.len() as int),
        ensures
            b == self@.is_dead(views(fighters@)),
    {
        let mut i: usize = 0;
        while i < self.fighters.len()
            invariant
                i <= self.fighters@.len(),
                all_below(self@.fighters, fighters@.len() as int),
                forall|j: int|
                    0 <= j < i ==> views(fighters@)[(#[trigger] self@.fighters[j]) as int].is_dead(),
            decreases self.fighters.len() - i,
        {
            assert(views(fighters@)[self@.fighters[i as int] as int]
                == fighters@[self@.fighters[i as int] as int]@);
            if !fighters[self.fighters[i]].is_dead() {
                return false;
            }
            i += 1;
        }
        true
    }

    /// The life of the members together, summoned ones left out.
    #[must_use]
    pub fn life(&self, fighters: &[Fighter]) -> (life: i32)
        requires
            all_below(self@.fighters, fighters@.len() as int),
        ensures
            life == self@.life(views(fighters@)),
    {
        let mut sum: i32 = 0;
        let mut i: usize = 0;
        assert(self@.fighters.take(0) =~= Seq::<usize>::empty());
        while i < self.fighters.len()
            invariant
                i <= self.fighters@.len(),
                all_below(self@.fighters, fighters@.len() as int),
                sum == life_of(self@.fighters.take(i as int), views(fighters@)),
            decreases self.fighters.len() - i,
        {
            let f: &Fighter = &fighters[self.fighters[i]];
            assert(self@.fighters.take(i + 1).drop_last() =~= self@.fighters.take(i as int));
            assert(views(fighters@)[self@.fighters[i as int] as int] == f@);
            if !f.is_summon() {
                sum = sum.wrapping_add(f.life);
            }
            i += 1;
        }
        assert(self@.fighters.take(i as int) =~= self@.fighters);
        sum
    }

    /// How many summoned members are alive.
    #[must_use]
    pub fn summon_count(&self, fighters: &[Fighter]) -> (n: usize)
        requires
            all_below(self@.fighters, fighters@.len() as int),
        ensures
            n == self@.summon_count(views(fighters@)),
    {
        let mut n: usize = 0;
        let mut i: usize = 0;
        assert(self@.fighters.take(0) =~= Seq::<usize>::empty());
        while i < self.fighters.len()
            invariant
                n <= i <= self.fighters@.len(),
                all_below(self@.fighters, fighters@.len() as int),
                n == summons_of(self@.fighters.take(i as int), views(fighters@)),
            decreases self.fighters.len() - i,
        {
            let f: &Fighter = &fighters[self.fighters[i]];
            assert(self@.fighters.take(i + 1).drop_last() =~= self@.fighters.take(i as int));
            assert(views(fighters@)[self@.fighters[i as int] as int] == f@);
            if !f.is_dead() && f.is_summon() {
                n += 1;
            }
            i += 1;
        }
        assert(self@.fighters.take(i as int) =~= self@.fighters);
        n
    }

    /// Makes a chip cool down for the team; -1 is for the rest of the fight.
    pub fn add_cooldown(&mut self, chip: i32, cooldown: i32)
        ensures
            final(self)@ == old(self)@.cooling(chip, cooldown),
    {
        let v: i32 = if cooldown == -1 {
            MAX_TURNS + 2
        } else {
            cooldown
        };
        let _ = self.cooldowns.insert(chip, v);
    }

    /// Whether a chip has to cool down for the team.
    #[must_use]
    pub fn has_cooldown(&self, chip: i32) -> (b: bool)
        ensures
            b == self@.cooldowns.contains_key(chip),
    {
        self.cooldowns.contains_key(&chip)
    }

    /// The turns that a chip has to cool down for the team, or 0.
    #[must_use]
    pub fn cooldown(&self, chip: i32) -> (n: i32)
        ensures
            n == or_zero(self@.cooldowns, chip),
    {
        match self.cooldowns.get(&chip) {
            Some(n) => *n,
            None => 0,
        }
    }

    /// Lets a turn pass for every chip that cools down for the team.
    pub fn apply_cooldown(&mut self)
        ensures
            final(self)@ == old(self)@.cooled(),
    {
        decrement_or_remove(&mut self.cooldowns);
    }
}

} // verus!
