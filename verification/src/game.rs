//! The functions that programs call during a fight on a plain grid.

use crate::args::{call_by_name, long_arg, text_arg, Answer, Arg, Call, Reply, Side};
use crate::assault::{counted, UseSpec, USE_FAILED};
use crate::chips::Chip;
use crate::effects::Stat;
use crate::fight::{Fight, FightView};
use crate::weapons::Weapon;
use vstd::prelude::*;
use vstd::string::*;

verus! {

pub const CELL_EMPTY: i64 = 0;

pub const CELL_OBSTACLE: i64 = 1;

pub const CELL_PLAYER: i64 = 2;

/// Whether a function belongs to a fight on a plain grid.
pub open spec fn is_played(call: Call) -> bool {
    match call {
        Call::Winner
        | Call::SetLoadout
        | Call::IsObstacle
        | Call::IsStatic
        | Call::Chips
        | Call::UseChipOnCell
        | Call::CellToUseChip
        | Call::Summon
        | Call::Resurrect
        | Call::Summons
        | Call::IsSummon
        | Call::Summoner
        | Call::BirthTurn => false,
        _ => true,
    }
}

/// Whether a name is that of a function of a fight on a plain grid.
#[must_use]
pub fn is_game_builtin(name: &str) -> (b: bool)
    ensures
        b == (crate::args::call_named(name@) matches Some(call) && is_played(call)),
{
    match call_by_name(name) {
        Some(call) => match call {
            Call::Winner
            | Call::SetLoadout
            | Call::IsObstacle
            | Call::IsStatic
            | Call::Chips
            | Call::UseChipOnCell
            | Call::CellToUseChip
            | Call::Summon
            | Call::Resurrect
            | Call::Summons
            | Call::IsSummon
            | Call::Summoner
            | Call::BirthTurn => false,
            _ => true,
        },
        None => false,
    }
}

/// A number or null.
pub open spec fn maybe(n: Option<i64>) -> Reply {
    match n {
        Some(v) => Reply::Int(v as int),
        None => Reply::Null,
    }
}

/// A list of numbers.
pub open spec fn list_reply(list: Seq<i64>) -> Reply {
    Reply::List(list.map_values(|n: i64| n as int))
}

/// The entity that an argument names; the caller without one.
pub open spec fn entity_at(args: Seq<Arg>, i: int, current: i64) -> i64 {
    if i < args.len() {
        args[i].long
    } else {
        current
    }
}

/// How many movement points the second argument allows; any number without
/// one.
pub open spec fn mp_at(args: Seq<Arg>) -> i64 {
    if args.len() > 1 {
        args[1].long
    } else {
        i64::MAX
    }
}

/// The rules for the use of a weapon.
pub open spec fn weapon_rules(w: Weapon) -> UseSpec {
    UseSpec {
        item: w.item,
        cost: w.cost,
        min_range: w.min_range,
        max_range: w.max_range,
        area: w.area,
        los: w.los,
        cooldown: w.cooldown,
        max_uses: w.max_uses,
    }
}

/// The rules for the use of a chip.
pub open spec fn chip_rules(c: Chip) -> UseSpec {
    UseSpec {
        item: c.item,
        cost: c.cost,
        min_range: c.min_range,
        max_range: c.max_range,
        area: c.area,
        los: c.los,
        cooldown: c.cooldown,
        max_uses: c.max_uses,
    }
}

/// The characteristic of the plain grid that a function asks for.
pub open spec fn stat_asked(id: usize) -> Option<Stat> {
    if id == crate::fighter::STAT_STRENGTH {
        Some(Stat::Strength)
    } else if id == crate::fighter::STAT_WISDOM {
        Some(Stat::Wisdom)
    } else if id == crate::fighter::STAT_AGILITY {
        Some(Stat::Agility)
    } else if id == crate::fighter::STAT_RESISTANCE {
        Some(Stat::Resistance)
    } else if id == crate::fighter::STAT_SCIENCE {
        Some(Stat::Science)
    } else if id == crate::fighter::STAT_MAGIC {
        Some(Stat::Magic)
    } else if id == crate::fighter::STAT_POWER {
        Some(Stat::Power)
    } else {
        None
    }
}

impl FightView {
    /// Those of a list in the team of an entity, or in another, but for the
    /// entity itself.
    pub open spec fn mates(self, ids: Seq<i64>, current: i64, allies: bool) -> Seq<i64>
        decreases ids.len(),
    {
        if ids.len() == 0 {
            Seq::empty()
        } else {
            let before = self.mates(ids.drop_last(), current, allies);
            if ids.last() != current && (self.team_of(ids.last()) == self.team_of(current))
                == allies {
                before.push(ids.last())
            } else {
                before
            }
        }
    }

    /// The living in the team of an entity, or in the others.
    pub open spec fn team_filter(self, current: i64, allies: bool) -> Seq<i64> {
        self.mates(crate::fight::numbers_of(self.entities, true), current, allies)
    }

    /// How far an entity is from a cell, in steps.
    pub open spec fn way_to(self, from: i64, id: i64) -> int {
        match self.cell_of(id) {
            Some(c) => self.distance(from, c),
            None => i64::MAX as int,
        }
    }

    /// Whether an entity is the nearest of a list to a cell, the first of
    /// equally near ones; none where the list is empty.
    pub open spec fn nearest_of(self, from: i64, list: Seq<i64>, answer: Option<i64>) -> bool {
        if list.len() == 0 {
            answer is None
        } else {
            exists|i: int|
                {
                    &&& 0 <= i < list.len()
                    &&& answer == Some(#[trigger] list[i])
                    &&& forall|j: int|
                        0 <= j < list.len() ==> self.way_to(from, list[i]) < self.way_to(
                            from,
                            #[trigger] list[j],
                        ) || (self.way_to(from, list[i]) == self.way_to(from, list[j]) && i <= j)
                }
        }
    }

    /// Whether an entity is the nearest ally, or enemy.
    pub open spec fn nearest_is(self, current: i64, allies: bool, answer: Option<i64>) -> bool {
        match self.cell_of(current) {
            Some(c) => self.nearest_of(c, self.team_filter(current, allies), answer),
            None => answer is None,
        }
    }

    /// What a function answers of an entity.
    pub open spec fn entity_told(self, current: i64, call: Call, args: Seq<Arg>) -> Reply {
        let id = entity_at(args, 0, current);
        let e = self.entity(id);
        match call {
            Call::Life => maybe(
                match e {
                    Some(x) => Some(x.life),
                    None => None,
                },
            ),
            Call::TotalLife => maybe(
                match e {
                    Some(x) => Some(x.max_life),
                    None => None,
                },
            ),
            Call::Cell => maybe(self.cell_of(id)),
            Call::Team => maybe(self.team_of(id)),
            Call::Name => match e {
                Some(x) => Reply::Text(x.name),
                None => Reply::Null,
            },
            Call::Mp => maybe(
                match e {
                    Some(x) => Some(x.mp),
                    None => None,
                },
            ),
            Call::Tp => maybe(
                match e {
                    Some(x) => Some(x.tp),
                    None => None,
                },
            ),
            Call::Level => maybe(
                match e {
                    Some(x) => Some(x.level),
                    None => None,
                },
            ),
            Call::Stat(n) => match stat_asked(n) {
                Some(stat) => maybe(self.stat(id, stat)),
                None => if n == crate::fighter::STAT_DAMAGE_RETURN {
                    maybe(self.damage_return(id))
                } else if n == crate::fighter::STAT_ABSOLUTE_SHIELD {
                    Reply::Int(self.absolute_shield(id) as int)
                } else if n == crate::fighter::STAT_RELATIVE_SHIELD {
                    Reply::Int(self.relative_shield(id) as int)
                } else {
                    Reply::Null
                },
            },
            Call::Weapon => maybe(
                match e {
                    Some(x) => x.weapon,
                    None => None,
                },
            ),
            Call::Weapons => list_reply(
                match e {
                    Some(x) => x.inventory,
                    None => Seq::empty(),
                },
            ),
            Call::Cooldown => Reply::Int(
                self.wait_of(entity_at(args, 1, current), crate::args::long_at(args, 0)) as int,
            ),
            Call::IsAlive => Reply::Bool(
                match e {
                    Some(x) => x.life > 0,
                    None => false,
                },
            ),
            Call::IsDead => Reply::Bool(
                match e {
                    Some(x) => x.life <= 0,
                    None => true,
                },
            ),
            _ => Reply::Null,
        }
    }

    /// What a function answers of cells.
    pub open spec fn cell_told(self, call: Call, args: Seq<Arg>) -> Reply {
        let a = crate::args::long_at(args, 0);
        let b = crate::args::long_at(args, 1);
        let both = self.on_grid(a as int) && self.on_grid(b as int);
        let dx = self.x(a as int) - self.x(b as int);
        let dy = self.y(a as int) - self.y(b as int);
        match call {
            Call::CellX => if self.on_grid(a as int) {
                Reply::Int(self.x(a as int))
            } else {
                Reply::Null
            },
            Call::CellY => if self.on_grid(a as int) {
                Reply::Int(self.y(a as int))
            } else {
                Reply::Null
            },
            Call::CellFromXy => if self.in_bounds(a as int, b as int) {
                Reply::Int(self.cell_at(a as int, b as int))
            } else {
                Reply::Null
            },
            Call::CellContent => Reply::Int(
                if self.obstacles.contains(a) {
                    CELL_OBSTACLE as int
                } else if crate::fight::standing_on(self.entities, a) is Some {
                    CELL_PLAYER as int
                } else {
                    CELL_EMPTY as int
                },
            ),
            Call::LineOfSight => Reply::Bool(self.sees(a as int, b as int)),
            Call::CellDistance => Reply::Int(
                if both {
                    self.gap(a as int, b as int)
                } else {
                    -1
                },
            ),
            Call::Distance => if both {
                Reply::Hypotenuse(dx, dy)
            } else {
                Reply::Distance(None)
            },
            Call::OnSameLine => Reply::Bool(
                both && (dx == 0 || dy == 0 || crate::map::abs(dx) == crate::map::abs(dy)),
            ),
            _ => Reply::Null,
        }
    }

    /// What a function that only reads the fight answers.
    pub open spec fn told(self, call: Call, args: Seq<Arg>, reply: Reply) -> bool {
        let current = self.current;
        let a = crate::args::long_at(args, 0);
        let b = crate::args::long_at(args, 1);
        match call {
            Call::Entity => reply == Reply::Int(current as int),
            Call::Turn => reply == Reply::Int(self.turn as int),
            Call::Members(Side::Everyone, with_dead) => reply == list_reply(
                crate::fight::numbers_of(self.entities, !with_dead),
            ),
            Call::Members(side, _) => reply == list_reply(
                self.team_filter(current, side == Side::Allies),
            ),
            Call::Count(side) => reply == Reply::Int(
                crate::assault::count_of(
                    self.team_filter(current, side == Side::Allies).len(),
                ) as int,
            ),
            Call::NearestEnemy => exists|n: Option<i64>|
                reply == maybe(n) && #[trigger] self.nearest_is(current, false, n),
            Call::NearestAlly => exists|n: Option<i64>|
                reply == maybe(n) && #[trigger] self.nearest_is(current, true, n),
            Call::Mark | Call::MarkText | Call::ClearMarks => reply == Reply::Bool(true),
            Call::Obstacles => exists|list: Seq<i64>|
                {
                    &&& #[trigger] crate::fight::growing(list)
                    &&& list.to_set() == self.obstacles
                    &&& reply == list_reply(list)
                },
            Call::Path => exists|path: Option<Vec<i64>>|
                {
                    &&& #[trigger] self.route(a, b, path)
                    &&& reply == match path {
                        Some(p) => list_reply(p@),
                        None => Reply::Null,
                    }
                },
            Call::PathLength => exists|path: Option<Vec<i64>>|
                {
                    &&& #[trigger] self.route(a, b, path)
                    &&& reply == Reply::Int(
                        match path {
                            Some(p) => if p@.len() <= i64::MAX {
                                p@.len() as int
                            } else {
                                -1
                            },
                            None => -1,
                        },
                    )
                },
            Call::CellX
            | Call::CellY
            | Call::CellFromXy
            | Call::CellContent
            | Call::LineOfSight
            | Call::CellDistance
            | Call::Distance
            | Call::OnSameLine => reply == self.cell_told(call, args),
            _ => reply == self.entity_told(current, call, args),
        }
    }

    /// What the use of the weapon in hand does.
    pub open spec fn weapon_fired(
        self,
        weapons: Seq<Weapon>,
        target: i64,
        after: FightView,
        reply: Reply,
    ) -> bool {
        let item = match self.entity(self.current) {
            Some(e) => e.weapon,
            None => None,
        };
        match item {
            Some(id) => match crate::weapons::row_of(weapons, id) {
                Some(i) => reply matches Reply::Int(n) && i64::MIN <= n <= i64::MAX
                    && self.item_used(
                    weapon_rules(weapons[i]),
                    weapons[i].effects@,
                    self.current,
                    target,
                    after,
                    n as i64,
                ),
                None => after == self && reply == Reply::Int(USE_FAILED as int),
            },
            None => after == self && reply == Reply::Int(USE_FAILED as int),
        }
    }

    /// What the use of a chip does.
    pub open spec fn chip_fired(
        self,
        chips: Seq<Chip>,
        item: i64,
        target: i64,
        after: FightView,
        reply: Reply,
    ) -> bool {
        match crate::chips::row_of(chips, item) {
            Some(i) => reply matches Reply::Int(n) && i64::MIN <= n <= i64::MAX && self.item_used(
                chip_rules(chips[i]),
                chips[i].effects@,
                self.current,
                target,
                after,
                n as i64,
            ),
            None => after == self && reply == Reply::Int(USE_FAILED as int),
        }
    }

    /// What the call of a function does.
    pub open spec fn played(
        self,
        call: Call,
        args: Seq<Arg>,
        weapons: Seq<Weapon>,
        chips: Seq<Chip>,
        after: FightView,
        reply: Reply,
    ) -> bool {
        let a = crate::args::long_at(args, 0);
        let b = crate::args::long_at(args, 1);
        let id = entity_at(args, 0, self.current);
        match call {
            Call::SetWeapon => match self.entity(self.current) {
                Some(e) if e.inventory.contains(a) => {
                    &&& reply == Reply::Bool(true)
                    &&& after == self.changed(
                        self.current,
                        crate::entity::EntityView { weapon: Some(a), ..e },
                    )
                },
                _ => after == self && reply == Reply::Bool(false),
            },
            Call::MoveTowardCell | Call::MoveAwayFromCell => {
                let away = call == Call::MoveAwayFromCell;
                &&& after == self.moved_toward(self.current, a, mp_at(args), away)
                &&& reply == Reply::Int(
                    self.move_length(self.current, a, mp_at(args), away) as int,
                )
            },
            Call::MoveToward | Call::MoveAwayFrom => {
                let away = call == Call::MoveAwayFrom;
                match self.cell_of(id) {
                    Some(c) => {
                        &&& after == self.moved_toward(self.current, c, mp_at(args), away)
                        &&& reply == Reply::Int(
                            self.move_length(self.current, c, mp_at(args), away) as int,
                        )
                    },
                    None => after == self && reply == Reply::Int(0),
                }
            },
            Call::UseWeapon => self.weapon_fired(weapons, a, after, reply),
            Call::UseChip => self.chip_fired(chips, a, b, after, reply),
            Call::Say => {
                &&& reply == Reply::Bool(true)
                &&& after == (FightView {
                    log: self.log.push((self.current, crate::args::text_at(args))),
                    ..self
                })
            },
            _ => after == self && self.told(call, args, reply),
        }
    }

    /// What the call of a function by its name does; nothing for a name of no
    /// function of the plain grid.
    pub open spec fn called(
        self,
        name: Seq<char>,
        args: Seq<Arg>,
        weapons: Seq<Weapon>,
        chips: Seq<Chip>,
        after: FightView,
        reply: Reply,
    ) -> bool {
        match crate::args::call_named(name) {
            Some(call) if is_played(call) => self.played(
                call,
                args,
                weapons,
                chips,
                after,
                reply,
            ),
            _ => after == self && reply == Reply::Null,
        }
    }
}

/// A number or null.
fn maybe_answer(n: Option<i64>) -> (a: Answer)
    ensures
        a@ == maybe(n),
{
    match n {
        Some(v) => Answer::Int(v),
        None => Answer::Null,
    }
}

/// The entity that an argument names.
fn entity_arg(args: &[Arg], i: usize, current: i64) -> (id: i64)
    ensures
        id == entity_at(args@, i as int, current),
{
    if i < args.len() {
        args[i].long
    } else {
        current
    }
}

/// How many movement points the second argument allows.
fn mp_arg(args: &[Arg]) -> (n: i64)
    ensures
        n == mp_at(args@),
{
    if args.len() > 1 {
        args[1].long
    } else {
        i64::MAX
    }
}

impl Fight {
    /// The living in the team of an entity, or in the others.
    #[must_use]
    pub fn team_filter(&self, current: i64, allies: bool) -> (list: Vec<i64>)
        ensures
            list@ == self@.team_filter(current, allies),
    {
        let ghost f = self@;
        let ids: Vec<i64> = self.entities(true);
        let own: Option<i64> = self.team(current);
        let mut list: Vec<i64> = Vec::new();
        let mut i: usize = 0;
        assert(ids@.take(0) =~= Seq::<i64>::empty());
        while i < ids.len()
            invariant
                f == self@,
                own == f.team_of(current),
                i <= ids@.len(),
                list@ == f.mates(ids@.take(i as int), current, allies),
            decreases ids.len() - i,
        {
            assert(ids@.take(i + 1).drop_last() =~= ids@.take(i as int));
            let id: i64 = ids[i];
            if id != current {
                let same: bool = match (self.team(id), own) {
                    (Some(a), Some(b)) => a == b,
                    (None, None) => true,
                    _ => false,
                };
                if same == allies {
                    list.push(id);
                }
            }
            i += 1;
        }
        assert(ids@.take(i as int) =~= ids@);
        list
    }

    /// The nearest ally, or enemy.
    #[must_use]
    pub fn nearest(&self, current: i64, allies: bool) -> (nearest: Option<i64>)
        requires
            self.wf(),
        ensures
            self@.nearest_is(current, allies, nearest),
    {
        let ghost f = self@;
        let from: i64 = match self.cell(current) {
            Some(c) => c,
            None => {
                return None;
            },
        };
        let list: Vec<i64> = self.team_filter(current, allies);
        if list.len() == 0 {
            return None;
        }
        let mut at: usize = 0;
        let mut best: i64 = self.steps_to(from, list[0]);
        let mut i: usize = 1;
        while i < list.len()
            invariant
                self.wf(),
                f == self@,
                at < i <= list@.len(),
                best == f.way_to(from, list@[at as int]),
                forall|j: int|
                    0 <= j < i ==> f.way_to(from, list@[at as int]) < f.way_to(
                        from,
                        #[trigger] list@[j],
                    ) || (f.way_to(from, list@[at as int]) == f.way_to(from, list@[j]) && at <= j),
            decreases list.len() - i,
        {
            let d: i64 = self.steps_to(from, list[i]);
            if d < best {
                best = d;
                at = i;
            }
            i += 1;
        }
        let answer: Option<i64> = Some(list[at]);
        assert(answer == Some(list@[at as int]));
        answer
    }

    /// How far an entity is from a cell, in steps.
    fn steps_to(&self, from: i64, id: i64) -> (d: i64)
        requires
            self.wf(),
        ensures
            d == self@.way_to(from, id),
    {
        match self.cell(id) {
            Some(c) => self.manhattan(from, c),
            None => i64::MAX,
        }
    }

    /// What a function answers of an entity.
    fn tell_entity(&self, call: Call, args: &[Arg]) -> (answer: Answer)
        ensures
            answer@ == self@.entity_told(self@.current, call, args@),
    {
        let id: i64 = entity_arg(args, 0, self.current);
        match call {
            Call::Life => maybe_answer(self.life(id)),
            Call::TotalLife => maybe_answer(self.max_life(id)),
            Call::Cell => maybe_answer(self.cell(id)),
            Call::Team => maybe_answer(self.team(id)),
            Call::Name => match self.name(id) {
                Some(s) => Answer::Text(s),
                None => Answer::Null,
            },
            Call::Mp => maybe_answer(self.mp(id)),
            Call::Tp => maybe_answer(self.tp(id)),
            Call::Level => maybe_answer(self.level(id)),
            Call::Stat(n) => {
                if n == crate::fighter::STAT_STRENGTH {
                    maybe_answer(self.stat(id, Stat::Strength))
                } else if n == crate::fighter::STAT_WISDOM {
                    maybe_answer(self.stat(id, Stat::Wisdom))
                } else if n == crate::fighter::STAT_AGILITY {
                    maybe_answer(self.stat(id, Stat::Agility))
                } else if n == crate::fighter::STAT_RESISTANCE {
                    maybe_answer(self.stat(id, Stat::Resistance))
                } else if n == crate::fighter::STAT_SCIENCE {
                    maybe_answer(self.stat(id, Stat::Science))
                } else if n == crate::fighter::STAT_MAGIC {
                    maybe_answer(self.stat(id, Stat::Magic))
                } else if n == crate::fighter::STAT_POWER {
                    maybe_answer(self.stat(id, Stat::Power))
                } else if n == crate::fighter::STAT_DAMAGE_RETURN {
                    maybe_answer(self.damage_return(id))
                } else if n == crate::fighter::STAT_ABSOLUTE_SHIELD {
                    Answer::Int(self.absolute_shield(id))
                } else if n == crate::fighter::STAT_RELATIVE_SHIELD {
                    Answer::Int(self.relative_shield(id))
                } else {
                    Answer::Null
                }
            },
            Call::Weapon => maybe_answer(self.weapon(id)),
            Call::Weapons => Answer::List(self.weapons(id)),
            Call::Cooldown => Answer::Int(
                self.cooldown(entity_arg(args, 1, self.current), long_arg(args, 0)),
            ),
            Call::IsAlive => Answer::Bool(
                match self.life(id) {
                    Some(l) => l > 0,
                    None => false,
                },
            ),
            Call::IsDead => Answer::Bool(
                match self.life(id) {
                    Some(l) => l <= 0,
                    None => true,
                },
            ),
            _ => Answer::Null,
        }
    }

    /// What a function answers of cells.
    fn tell_cell(&self, call: Call, args: &[Arg]) -> (answer: Answer)
        requires
            self.wf(),
        ensures
            answer@ == self@.cell_told(call, args@),
    {
        let a: i64 = long_arg(args, 0);
        let b: i64 = long_arg(args, 1);
        match call {
            Call::CellX => maybe_answer(self.cell_x(a)),
            Call::CellY => maybe_answer(self.cell_y(a)),
            Call::CellFromXy => maybe_answer(self.cell_from_xy(a, b)),
            Call::CellContent => {
                if self.is_obstacle(a) {
                    Answer::Int(CELL_OBSTACLE)
                } else if self.entity_at(a).is_some() {
                    Answer::Int(CELL_PLAYER)
                } else {
                    Answer::Int(CELL_EMPTY)
                }
            },
            Call::LineOfSight => Answer::Bool(self.line_of_sight(a, b)),
            Call::CellDistance => match self.coords(a, b) {
                Some(_) => Answer::Int(self.manhattan(a, b)),
                None => Answer::Int(-1),
            },
            Call::Distance => match self.coords(a, b) {
                Some((x1, y1, x2, y2)) => Answer::Hypotenuse(x1 - x2, y1 - y2),
                None => Answer::Distance(None),
            },
            Call::OnSameLine => match self.coords(a, b) {
                Some((x1, y1, x2, y2)) => {
                    let dx: i64 = x1 - x2;
                    let dy: i64 = y1 - y2;
                    Answer::Bool(dx == 0 || dy == 0 || dx == dy || dx == -dy)
                },
                None => Answer::Bool(false),
            },
            _ => Answer::Null,
        }
    }

    /// What a function that only reads the fight answers.
    fn tell(&self, call: Call, args: &[Arg]) -> (answer: Answer)
        requires
            self.wf(),
        ensures
            self@.told(call, args@, answer@),
    {
        let ghost f = self@;
        let a: i64 = long_arg(args, 0);
        let b: i64 = long_arg(args, 1);
        match call {
            Call::Entity => Answer::Int(self.current),
            Call::Turn => Answer::Int(self.turn),
            Call::Members(side, with_dead) => match side {
                Side::Everyone => Answer::List(self.entities(!with_dead)),
                Side::Allies => Answer::List(self.team_filter(self.current, true)),
                Side::Enemies => Answer::List(self.team_filter(self.current, false)),
            },
            Call::Count(side) => match side {
                Side::Allies => Answer::Int(counted(self.team_filter(self.current, true).len())),
                _ => Answer::Int(counted(self.team_filter(self.current, false).len())),
            },
            Call::NearestEnemy => {
                let n = self.nearest(self.current, false);
                assert(f.nearest_is(f.current, false, n));
                maybe_answer(n)
            },
            Call::NearestAlly => {
                let n = self.nearest(self.current, true);
                assert(f.nearest_is(f.current, true, n));
                maybe_answer(n)
            },
            Call::Mark | Call::MarkText | Call::ClearMarks => Answer::Bool(true),
            Call::Obstacles => {
                let list = self.obstacles();
                assert(crate::fight::growing(list@));
                Answer::List(list)
            },
            Call::Path => {
                let path = self.bfs_path(a, b);
                assert(f.route(a, b, path));
                match path {
                    Some(p) => Answer::List(p),
                    None => Answer::Null,
                }
            },
            Call::PathLength => {
                let path = self.bfs_path(a, b);
                assert(f.route(a, b, path));
                match path {
                    Some(p) => {
                        if p.len() as u64 <= 0x7fff_ffff_ffff_ffff {
                            Answer::Int(p.len() as i64)
                        } else {
                            Answer::Int(-1)
                        }
                    },
                    None => Answer::Int(-1),
                }
            },
            Call::CellX
            | Call::CellY
            | Call::CellFromXy
            | Call::CellContent
            | Call::LineOfSight
            | Call::CellDistance
            | Call::Distance
            | Call::OnSameLine => self.tell_cell(call, args),
            _ => self.tell_entity(call, args),
        }
    }

    /// Uses the weapon in hand.
    fn use_weapon(&mut self, weapons: &[Weapon], target: i64) -> (answer: Answer)
        requires
            old(self).wf(),
            forall|i: int| 0 <= i < weapons@.len() ==> (#[trigger] weapons@[i]).wf(),
        ensures
            final(self).wf(),
            final(self)@.keeps(old(self)@),
            old(self)@.weapon_fired(weapons@, target, final(self)@, answer@),
    {
        let item: i64 = match self.weapon(self.current) {
            Some(item) => item,
            None => {
                return Answer::Int(USE_FAILED);
            },
        };
        match crate::weapons::lookup(weapons, item) {
            Some(w) => {
                let spec = UseSpec {
                    item: w.item,
                    cost: w.cost,
                    min_range: w.min_range,
                    max_range: w.max_range,
                    area: w.area,
                    los: w.los,
                    cooldown: w.cooldown,
                    max_uses: w.max_uses,
                };
                Answer::Int(self.use_effects(self.current, target, spec, w.effects.as_slice()))
            },
            None => Answer::Int(USE_FAILED),
        }
    }

    /// Uses a chip.
    fn use_chip(&mut self, chips: &[Chip], item: i64, target: i64) -> (answer: Answer)
        requires
            old(self).wf(),
            forall|i: int| 0 <= i < chips@.len() ==> (#[trigger] chips@[i]).wf(),
        ensures
            final(self).wf(),
            final(self)@.keeps(old(self)@),
            old(self)@.chip_fired(chips@, item, target, final(self)@, answer@),
    {
        match crate::chips::lookup(chips, item) {
            Some(c) => {
                let spec = UseSpec {
                    item: c.item,
                    cost: c.cost,
                    min_range: c.min_range,
                    max_range: c.max_range,
                    area: c.area,
                    los: c.los,
                    cooldown: c.cooldown,
                    max_uses: c.max_uses,
                };
                Answer::Int(self.use_effects(self.current, target, spec, c.effects.as_slice()))
            },
            None => Answer::Int(USE_FAILED),
        }
    }

    /// Runs a function.
    fn play(&mut self, call: Call, args: &[Arg], weapons: &[Weapon], chips: &[Chip]) -> (answer:
        Answer)
        requires
            old(self).wf(),
            forall|i: int| 0 <= i < weapons@.len() ==> (#[trigger] weapons@[i]).wf(),
            forall|i: int| 0 <= i < chips@.len() ==> (#[trigger] chips@[i]).wf(),
        ensures
            final(self).wf(),
            final(self)@.keeps(old(self)@),
            old(self)@.played(call, args@, weapons@, chips@, final(self)@, answer@),
    {
        let current: i64 = self.current;
        let a: i64 = long_arg(args, 0);
        match call {
            Call::SetWeapon => Answer::Bool(self.set_weapon(current, a)),
            Call::MoveTowardCell => Answer::Int(self.move_toward(current, a, mp_arg(args), false)),
            Call::MoveAwayFromCell => Answer::Int(self.move_toward(current, a, mp_arg(args), true)),
            Call::MoveToward => match self.cell(entity_arg(args, 0, current)) {
                Some(c) => Answer::Int(self.move_toward(current, c, mp_arg(args), false)),
                None => Answer::Int(0),
            },
            Call::MoveAwayFrom => match self.cell(entity_arg(args, 0, current)) {
                Some(c) => Answer::Int(self.move_toward(current, c, mp_arg(args), true)),
                None => Answer::Int(0),
            },
            Call::UseWeapon => self.use_weapon(weapons, a),
            Call::UseChip => self.use_chip(chips, a, long_arg(args, 1)),
            Call::Say => {
                let message: String = text_arg(args);
                self.say(current, message.as_str());
                Answer::Bool(true)
            },
            _ => self.tell(call, args),
        }
    }
}

/// Runs the function with a name for the entity whose program runs, with the
/// weapons and the chips that there are.
pub fn call_game_builtin(
    fight: &mut Fight,
    name: &str,
    args: &[Arg],
    weapons: &[Weapon],
    chips: &[Chip],
) -> (answer: Answer)
    requires
        old(fight).wf(),
        forall|i: int| 0 <= i < weapons@.len() ==> (#[trigger] weapons@[i]).wf(),
        forall|i: int| 0 <= i < chips@.len() ==> (#[trigger] chips@[i]).wf(),
    ensures
        final(fight).wf(),
        final(fight)@.keeps(old(fight)@),
        old(fight)@.called(name@, args@, weapons@, chips@, final(fight)@, answer@),
{
    if !is_game_builtin(name) {
        return Answer::Null;
    }
    match call_by_name(name) {
        Some(call) => fight.play(call, args, weapons, chips),
        None => Answer::Null,
    }
}

/// Whether a function may change the fight.
pub open spec fn acts(call: Call) -> bool {
    match call {
        Call::SetWeapon
        | Call::MoveToward
        | Call::MoveTowardCell
        | Call::MoveAwayFrom
        | Call::MoveAwayFromCell
        | Call::UseWeapon
        | Call::UseChip
        | Call::Say => true,
        _ => false,
    }
}

/// Neither a question nor a name of no function changes the fight.
pub proof fn lemma_asking_changes_nothing(
    f: FightView,
    name: Seq<char>,
    args: Seq<Arg>,
    weapons: Seq<Weapon>,
    chips: Seq<Chip>,
    after: FightView,
    reply: Reply,
)
    requires
        f.called(name, args, weapons, chips, after, reply),
        !(crate::args::call_named(name) matches Some(call) && acts(call)),
    ensures
        after == f,
{
}

/// The answers of `getCellX` and `getCellY` lead back to the cell, where the
/// sides of the grid have a length.
pub proof fn lemma_grid_coordinates_lead_back(f: FightView, cell: Seq<Arg>, xy: Seq<Arg>)
    requires
        f.wf(),
        f.width > 0,
        cell.len() > 0,
        xy.len() > 1,
        f.on_grid(cell[0].long as int),
        f.cell_told(Call::CellX, cell) == Reply::Int(xy[0].long as int),
        f.cell_told(Call::CellY, cell) == Reply::Int(xy[1].long as int),
    ensures
        f.cell_told(Call::CellFromXy, xy) == Reply::Int(cell[0].long as int),
{
    crate::fight::lemma_coords(f, cell[0].long as int);
}

} // verus!
