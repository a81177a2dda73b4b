//! The functions of a fight that only read it.

use crate::args::{
    call_by_name, fit, long_arg, narrowed, Answer, Arg, ArgKind, Call, Item, Reply, Side,
};
use crate::attack::EntityState;
use crate::fighter::{FighterView, TeamView, STAT_COUNT};
use crate::map::{Board, GameMap};
use crate::world::{HookPhase, State, World};
use vstd::prelude::*;
use vstd::std_specs::iter::IteratorSpec;
use vstd::string::*;

verus! {

broadcast use {
    vstd::std_specs::hash::group_hash_axioms,
    vstd::std_specs::btree::group_btree_axioms,
    crate::fighter::lemma_stats_len,
};

pub const CELL_EMPTY: i64 = 0;

pub const CELL_ENTITY: i64 = 1;

pub const CELL_OBSTACLE: i64 = 2;

/// Indices as numbers.
pub open spec fn ids(list: Seq<usize>) -> Seq<int> {
    list.map_values(|f: usize| f as int)
}

/// Short numbers as numbers.
pub open spec fn numbers(list: Seq<i32>) -> Seq<int> {
    list.map_values(|n: i32| n as int)
}

/// The members of a list, with or without the dead.
pub open spec fn kept(list: Seq<usize>, fighters: Seq<FighterView>, with_dead: bool) -> Seq<usize>
    decreases list.len(),
{
    if list.len() == 0 {
        list
    } else if with_dead || !fighters[list.last() as int].is_dead() {
        kept(list.drop_last(), fighters, with_dead).push(list.last())
    } else {
        kept(list.drop_last(), fighters, with_dead)
    }
}

/// The living summons of a fighter in a list.
pub open spec fn summons_in(list: Seq<usize>, fighters: Seq<FighterView>, owner: usize) -> Seq<
    usize,
>
    decreases list.len(),
{
    if list.len() == 0 {
        list
    } else if !fighters[list.last() as int].is_dead() && fighters[list.last() as int].summoner
        == Some(owner) {
        summons_in(list.drop_last(), fighters, owner).push(list.last())
    } else {
        summons_in(list.drop_last(), fighters, owner)
    }
}

/// The members of a list that stand on the board, but for one.
pub open spec fn standing(list: Seq<usize>, fighters: Seq<FighterView>, skip: int) -> Seq<usize>
    decreases list.len(),
{
    if list.len() == 0 {
        list
    } else if list.last() != skip && fighters[list.last() as int].cell is Some {
        standing(list.drop_last(), fighters, skip).push(list.last())
    } else {
        standing(list.drop_last(), fighters, skip)
    }
}

/// A cell or none, as a list.
pub open spec fn as_list(cell: Option<usize>) -> Seq<usize> {
    match cell {
        Some(c) => seq![c],
        None => Seq::empty(),
    }
}

/// The cell that a number stands for.
pub open spec fn cell_named(board: Board, n: i64) -> Option<usize> {
    if board.has(crate::args::narrow(n) as int) {
        Some(crate::args::narrow(n) as usize)
    } else {
        None
    }
}

/// The cells that the elements of an array stand for.
pub open spec fn cells_named(board: Board, items: Seq<Item>) -> Seq<usize>
    decreases items.len(),
{
    if items.len() == 0 {
        Seq::empty()
    } else {
        cells_named(board, items.drop_last()) + as_list(cell_named(board, items.last().long))
    }
}

/// Whether an argument names a cell of the board.
pub open spec fn marks(board: Board, args: Seq<Arg>) -> bool {
    &&& args.len() > 0
    &&& match args[0].kind {
        ArgKind::Number => cell_named(board, args[0].long) is Some,
        ArgKind::Array => cells_named(board, args[0].items@).len() > 0,
        _ => false,
    }
}

/// Whether a fighter is the nearest of a list to a cell, the first of equally
/// near ones; -1 where the list is empty.
pub open spec fn is_nearest(w: World, from: int, list: Seq<usize>, answer: int) -> bool {
    if list.len() == 0 {
        answer == -1
    } else {
        exists|i: int|
            {
                &&& 0 <= i < list.len()
                &&& answer == #[trigger] list[i]
                &&& forall|j: int|
                    0 <= j < list.len() ==> w.gap(from, list[i] as int) < w.gap(
                        from,
                        #[trigger] list[j] as int,
                    ) || (w.gap(from, list[i] as int) == w.gap(from, list[j] as int) && i <= j)
            }
    }
}

impl World {
    pub open spec fn in_hook(self) -> bool {
        self.hook_phase != HookPhase::NoHook
    }

    /// The square of the distance from a cell to a fighter.
    pub open spec fn gap(self, from: int, fid: int) -> int {
        self.board.distance2(from, self.fighters[fid].cell.unwrap() as int)
    }

    /// The members of the first `n` teams, as far as they belong to a side.
    pub open spec fn listed(self, side: Side, own: int, with_dead: bool, n: nat) -> Seq<usize>
        decreases n,
    {
        if n == 0 {
            Seq::empty()
        } else {
            let before = self.listed(side, own, with_dead, (n - 1) as nat);
            if side.takes(own, n - 1) {
                before + kept(self.teams[n - 1].fighters, self.fighters, with_dead)
            } else {
                before
            }
        }
    }

    /// The members of a side, from the team of a fighter.
    pub open spec fn members(self, current: int, side: Side, with_dead: bool) -> Seq<usize> {
        self.listed(side, self.fighters[current].team as int, with_dead, self.teams.len())
    }

    /// Whether a fighter is the nearest living one of a side; -1 for none.
    pub open spec fn nearest_is(self, current: int, side: Side, skip: int, answer: int) -> bool {
        match self.fighters[current].cell {
            Some(c) => is_nearest(
                self,
                c as int,
                standing(self.members(current, side, false), self.fighters, skip),
                answer,
            ),
            None => answer == -1,
        }
    }

    /// The two cells that the first arguments stand for.
    pub open spec fn cell_pair(self, args: Seq<Arg>) -> Option<(usize, usize)> {
        match (
            cell_named(self.board, crate::args::long_at(args, 0)),
            cell_named(self.board, crate::args::long_at(args, 1)),
        ) {
            (Some(a), Some(b)) => Some((a, b)),
            _ => None,
        }
    }

    /// The cell of the fighter that a number stands for.
    pub open spec fn cell_of_entity(self, n: i64) -> Option<usize> {
        let id = crate::args::narrow(n);
        if 0 <= id < self.fighters.len() {
            self.fighters[id as int].cell
        } else {
            None
        }
    }

    /// The cells of the fighters that the numbers in an array stand for.
    pub open spec fn cells_of_entities(self, items: Seq<Item>) -> Seq<usize>
        decreases items.len(),
    {
        if items.len() == 0 {
            Seq::empty()
        } else if items.last().number {
            self.cells_of_entities(items.drop_last()) + as_list(
                self.cell_of_entity(items.last().long),
            )
        } else {
            self.cells_of_entities(items.drop_last())
        }
    }

    /// The cells that a line of sight takes for free: of one fighter; of
    /// several and the caller; or of the caller.
    pub open spec fn sight_ignores(self, current: int, args: Seq<Arg>) -> Seq<usize> {
        let own = as_list(self.fighters[current].cell);
        if args.len() <= 2 {
            own
        } else {
            match args[2].kind {
                ArgKind::Number => as_list(self.cell_of_entity(args[2].long)),
                ArgKind::Array => own + self.cells_of_entities(args[2].items@),
                _ => own,
            }
        }
    }

    /// The cells that a path takes for free: some cells, or that of one
    /// fighter.
    pub open spec fn path_ignores(self, args: Seq<Arg>) -> Seq<usize> {
        if args.len() <= 2 {
            Seq::empty()
        } else {
            match args[2].kind {
                ArgKind::Array => cells_named(self.board, args[2].items@),
                ArgKind::Number => as_list(self.cell_of_entity(args[2].long)),
                _ => Seq::empty(),
            }
        }
    }

    /// The fighter that an argument stands for: the caller without one.
    pub open spec fn target(self, current: int, args: Seq<Arg>, i: int) -> Option<int> {
        if i >= args.len() || args[i].kind == ArgKind::Null {
            Some(current)
        } else if 0 <= args[i].long < self.fighters.len() {
            Some(args[i].long as int)
        } else {
            None
        }
    }

    /// The fighter that an argument stands for, but nobody else before the
    /// fight.
    pub open spec fn known(self, current: int, args: Seq<Arg>) -> Option<int> {
        match self.target(current, args, 0) {
            Some(f) => if self.hook_phase == HookPhase::BeforeFight && f != current {
                None
            } else {
                Some(f)
            },
            None => None,
        }
    }

    /// How long a fighter has to wait for a chip.
    pub open spec fn wait_for(self, fid: int, chip: i32) -> i32 {
        if !self.chip_specs.contains_key(chip) {
            0
        } else {
            let spec = self.chip_specs[chip];
            if spec.team_cooldown {
                crate::fighter::or_zero(self.teams[self.fighters[fid].team as int].cooldowns, spec.id)
            } else {
                crate::fighter::or_zero(self.fighters[fid].cooldowns, spec.id)
            }
        }
    }

    /// What a function answers of a cell.
    pub open spec fn cell_reply(self, call: Call, args: Seq<Arg>) -> Reply {
        let cell = cell_named(self.board, crate::args::long_at(args, 0));
        let pair = self.cell_pair(args);
        match call {
            Call::CellFromXy => match self.board.at(
                crate::args::narrow(crate::args::long_at(args, 0)).wrapping_add(
                    (self.board.width - 1) as i32,
                ) as int,
                crate::args::narrow(crate::args::long_at(args, 1)) as int,
            ) {
                Some(c) => Reply::Int(c as int),
                None => Reply::Null,
            },
            Call::CellX => match cell {
                Some(c) => Reply::Int(self.board.x(c as int) - self.board.width + 1),
                None => Reply::Null,
            },
            Call::CellY => match cell {
                Some(c) => Reply::Int(self.board.y(c as int)),
                None => Reply::Null,
            },
            Call::IsObstacle => Reply::Bool(
                match cell {
                    Some(c) => !self.board.walkable(c as int),
                    None => true,
                },
            ),
            Call::Obstacles => Reply::List(
                ids(self.board.obstacles_below(self.board.cells.len() as int)),
            ),
            Call::CellContent => Reply::Int(
                match cell {
                    Some(c) => if !self.board.walkable(c as int) {
                        CELL_OBSTACLE as int
                    } else if self.entity_on(c) is Some {
                        CELL_ENTITY as int
                    } else {
                        CELL_EMPTY as int
                    },
                    None => -1,
                },
            ),
            Call::CellDistance => Reply::Int(
                match pair {
                    Some((a, b)) => self.board.distance(a as int, b as int),
                    None => -1,
                },
            ),
            Call::Distance => Reply::Distance(
                match pair {
                    Some((a, b)) => Some(self.board.distance2(a as int, b as int)),
                    None => None,
                },
            ),
            Call::OnSameLine => Reply::Bool(
                match pair {
                    Some((a, b)) => self.board.x(a as int) == self.board.x(b as int)
                        || self.board.y(a as int) == self.board.y(b as int),
                    None => false,
                },
            ),
            Call::Mark => Reply::Bool(marks(self.board, args)),
            Call::MarkText => Reply::Bool(
                (args.len() > 0 && args[0].kind == ArgKind::Table) || marks(self.board, args),
            ),
            _ => Reply::Null,
        }
    }

    /// What a function answers of what a fighter can do, to a program that may
    /// know it.
    pub open spec fn strength_reply(self, current: int, call: Call, args: Seq<Arg>) -> Reply {
        match self.known(current, args) {
            None => Reply::Null,
            Some(fid) => {
                let f = self.fighters[fid];
                match call {
                    Call::Life => Reply::Int(f.life as int),
                    Call::TotalLife => Reply::Int(f.total_life as int),
                    Call::Tp => Reply::Int(f.tp() as int),
                    Call::Mp => Reply::Int(f.mp() as int),
                    Call::Stat(id) => Reply::Int(f.stat(id as int) as int),
                    Call::Weapon => match f.weapon {
                        Some(w) => Reply::Int(w as int),
                        None => Reply::Null,
                    },
                    Call::Weapons => Reply::List(numbers(f.weapons)),
                    _ => Reply::Null,
                }
            },
        }
    }

    /// What a function answers of a fighter that anybody may know.
    pub open spec fn entity_reply(self, current: int, call: Call, args: Seq<Arg>) -> Reply {
        match self.target(current, args, if call == Call::Cooldown {
            1
        } else {
            0
        }) {
            None => match call {
                Call::IsStatic | Call::IsAlive | Call::IsDead => Reply::Bool(false),
                _ => Reply::Null,
            },
            Some(fid) => {
                let f = self.fighters[fid];
                match call {
                    Call::Cell => match f.cell {
                        Some(c) => Reply::Int(c as int),
                        None => Reply::Null,
                    },
                    Call::IsStatic => Reply::Bool(f.has_state(EntityState::Static)),
                    Call::Name => Reply::Text(f.name),
                    Call::Level => Reply::Int(f.level as int),
                    Call::Team => Reply::Int(f.team as int),
                    Call::IsAlive => Reply::Bool(!f.is_dead()),
                    Call::IsDead => Reply::Bool(f.is_dead()),
                    Call::Cooldown => Reply::Int(
                        self.wait_for(
                            fid,
                            crate::args::narrow(crate::args::long_at(args, 0)),
                        ) as int,
                    ),
                    Call::Summons => Reply::List(
                        ids(
                            summons_in(
                                self.teams[f.team as int].fighters,
                                self.fighters,
                                fid as usize,
                            ),
                        ),
                    ),
                    Call::IsSummon => Reply::Bool(f.is_summon()),
                    Call::Summoner => Reply::Int(
                        match f.summoner {
                            Some(owner) => (owner as i64) as int,
                            None => -1,
                        },
                    ),
                    Call::BirthTurn => Reply::Int(f.birth_turn as int),
                    _ => Reply::Null,
                }
            },
        }
    }

    /// What a search for a path answers.
    pub open spec fn path_reply(self, args: Seq<Arg>, length: bool, reply: Reply) -> bool {
        match self.cell_pair(args) {
            None => reply == Reply::Null,
            Some((a, b)) => if a == b {
                reply == if length {
                    Reply::Int(0)
                } else {
                    Reply::List(Seq::empty())
                }
            } else {
                exists|path: Option<Vec<usize>>|
                    {
                        &&& #[trigger] self.board.path_answer(
                            a as int,
                            seq![b],
                            self.path_ignores(args),
                            path,
                        )
                        &&& reply == match path {
                            Some(p) => if length {
                                Reply::Int(p@.len() as int)
                            } else {
                                Reply::List(ids(p@))
                            },
                            None => Reply::Null,
                        }
                    }
            },
        }
    }

    /// What the search for a cell to use a chip from answers.
    pub open spec fn vantage_reply(self, current: int, args: Seq<Arg>, reply: Reply) -> bool {
        let id = crate::args::fitting(crate::args::long_at(args, 0));
        let leek = crate::args::long_at(args, 1);
        if id is None || !self.chip_specs.contains_key(id.unwrap()) || !(0 <= leek
            < self.fighters.len()) || self.fighters[leek as int].cell is None
            || self.fighters[current].cell is None {
            reply == Reply::Int(-1)
        } else {
            let spec = self.chip_specs[id.unwrap()];
            let own = self.fighters[current].cell.unwrap();
            let casts = self.board.cast_cells(
                spec.min_range as int,
                spec.max_range as int,
                spec.launch_type,
                spec.needs_los,
                self.fighters[leek as int].cell.unwrap() as int,
                seq![own],
            );
            if casts.len() == 0 {
                reply == Reply::Int(-1)
            } else if casts.contains(own) {
                reply == Reply::Int(own as int)
            } else {
                exists|path: Option<Vec<usize>>|
                    {
                        &&& #[trigger] self.board.path_answer(own as int, casts, seq![own], path)
                        &&& reply == match path {
                            Some(p) => if p@.len() == 0 {
                                Reply::Int(own as int)
                            } else {
                                Reply::Int(p@.last() as int)
                            },
                            None => Reply::Int(-1),
                        }
                    }
            }
        }
    }

    /// What the list of the chips of a fighter answers.
    pub open spec fn chips_reply(self, current: int, args: Seq<Arg>, reply: Reply) -> bool {
        match self.known(current, args) {
            None => reply == Reply::Null,
            Some(fid) => exists|list: Seq<i32>|
                {
                    &&& #[trigger] crate::flow::ascending(list)
                    &&& list.to_set() == self.fighters[fid].chips
                    &&& reply == Reply::List(numbers(list))
                },
        }
    }

    /// What a function that only reads the fight answers.
    pub open spec fn tells(self, current: int, call: Call, args: Seq<Arg>, reply: Reply) -> bool {
        match call {
            Call::Turn => reply == Reply::Int(self.order.turn as int),
            Call::Winner => reply == Reply::Int(self.win_team as int),
            Call::Entity => reply == Reply::Int(current),
            Call::NearestEnemy => exists|n: int|
                reply == Reply::Int(n) && #[trigger] self.nearest_is(current, Side::Enemies, -1, n),
            Call::NearestAlly => exists|n: int|
                reply == Reply::Int(n) && #[trigger] self.nearest_is(
                    current,
                    Side::Allies,
                    current,
                    n,
                ),
            Call::Members(side, with_dead) => reply == Reply::List(
                ids(self.members(current, side, with_dead)),
            ),
            Call::Count(side) => reply == Reply::Int(
                (self.members(current, side, true).len() as i64) as int,
            ),
            Call::CellFromXy
            | Call::CellX
            | Call::CellY
            | Call::IsObstacle
            | Call::Obstacles
            | Call::CellContent
            | Call::CellDistance
            | Call::Distance
            | Call::OnSameLine
            | Call::Mark
            | Call::MarkText
            | Call::ClearMarks => reply == self.cell_reply(call, args),
            Call::LineOfSight => reply == match self.cell_pair(args) {
                Some((a, b)) => Reply::Bool(
                    self.board.sees(a as int, b as int, self.sight_ignores(current, args)),
                ),
                None => Reply::Null,
            },
            Call::Path => self.path_reply(args, false, reply),
            Call::PathLength => self.path_reply(args, true, reply),
            Call::CellToUseChip => self.vantage_reply(current, args, reply),
            Call::Chips => self.chips_reply(current, args, reply),
            Call::Life | Call::TotalLife | Call::Tp | Call::Mp | Call::Stat(_) | Call::Weapon
            | Call::Weapons => reply == self.strength_reply(current, call, args),
            _ => reply == self.entity_reply(current, call, args),
        }
    }
}

/// Indices as an answer.
fn id_list(list: &Vec<usize>) -> (answer: Answer)
    requires
        forall|i: int| 0 <= i < list@.len() ==> #[trigger] list@[i] <= i64::MAX,
    ensures
        answer@ == Reply::List(ids(list@)),
{
    let mut out: Vec<i64> = Vec::new();
    let mut i: usize = 0;
    while i < list.len()
        invariant
            i <= list@.len(),
            forall|j: int| 0 <= j < list@.len() ==> #[trigger] list@[j] <= i64::MAX,
            out@.len() == i,
            forall|j: int| 0 <= j < i ==> #[trigger] out@[j] == list@[j],
        decreases list.len() - i,
    {
        assert(list@[i as int] <= i64::MAX);
        out.push(list[i] as i64);
        i += 1;
    }
    assert(out@.map_values(|n: i64| n as int) =~= ids(list@));
    Answer::List(out)
}

/// Short numbers as an answer.
fn number_list(list: &Vec<i32>) -> (answer: Answer)
    ensures
        answer@ == Reply::List(numbers(list@)),
{
    let mut out: Vec<i64> = Vec::new();
    let mut i: usize = 0;
    while i < list.len()
        invariant
            i <= list@.len(),
            out@.len() == i,
            forall|j: int| 0 <= j < i ==> #[trigger] out@[j] == list@[j],
        decreases list.len() - i,
    {
        out.push(list[i] as i64);
        i += 1;
    }
    assert(out@.map_values(|n: i64| n as int) =~= numbers(list@));
    Answer::List(out)
}

/// The place for a number in a list that grows.
fn slot(list: &Vec<i32>, n: i32) -> (i: usize)
    requires
        crate::flow::ascending(list@),
        !list@.contains(n),
    ensures
        i <= list@.len(),
        forall|j: int| 0 <= j < i ==> list@[j] < n,
        forall|j: int| i <= j < list@.len() ==> n < list@[j],
{
    let mut i: usize = 0;
    while i < list.len() && list[i] < n
        invariant
            i <= list@.len(),
            forall|j: int| 0 <= j < i ==> list@[j] < n,
        decreases list.len() - i,
    {
        i += 1;
    }
    proof {
        if i < list@.len() {
            assert(list@[i as int] != n);
        }
    }
    i
}

/// A longer list holds what the list held, and the new number.
proof fn lemma_inserted(list: Seq<i32>, i: int, n: i32, x: i32)
    requires
        0 <= i <= list.len(),
    ensures
        list.insert(i, n).contains(x) <==> list.contains(x) || x == n,
{
    let longer = list.insert(i, n);
    if longer.contains(x) {
        let j = choose|j: int| 0 <= j < longer.len() && longer[j] == x;
        if j < i {
            assert(list[j] == x);
        } else if j > i {
            assert(list[j - 1] == x);
        }
    }
    if list.contains(x) {
        let j = choose|j: int| 0 <= j < list.len() && list[j] == x;
        if j < i {
            assert(longer[j] == x);
        } else {
            assert(longer[j + 1] == x);
        }
    }
    assert(longer[i] == n);
}

/// The numbers of a set, from the least on.
fn sorted(set: &std::collections::BTreeSet<i32>) -> (list: Vec<i32>)
    ensures
        crate::flow::ascending(list@),
        list@.to_set() == set@,
{
    let mut list: Vec<i32> = Vec::new();
    let elements = set.iter();
    let ghost all = elements.remaining();
    assert(all.unref().to_set() == set@);
    for k in it: elements
        invariant
            it.seq() == all,
            all.no_duplicates(),
            crate::flow::ascending(list@),
            list@.len() == it.index(),
            forall|x: i32| #[trigger] list@.contains(x) <==> exists|i: int| 0 <= i < it.index() && *all[i] == x,
    {
        let ghost before = list@;
        let ghost n = it.index();
        proof {
            if before.contains(*k) {
                let i = choose|i: int| 0 <= i < n && *all[i] == *k;
                assert(all[i] == all[n]);
            }
        }
        let i: usize = slot(&list, *k);
        list.insert(i, *k);
        proof {
            assert forall|x: i32| #[trigger] list@.contains(x) <==> exists|j: int|
                0 <= j < n + 1 && *all[j] == x by {
                lemma_inserted(before, i as int, *k, x);
                if before.contains(x) {
                    let j = choose|j: int| 0 <= j < n && *all[j] == x;
                    assert(*all[j] == x);
                }
                if x == *k {
                    assert(*all[n] == x);
                }
            }
        }
    }
    proof {
        assert forall|x: i32| list@.to_set().contains(x) == set@.contains(x) by {
            if set@.contains(x) {
                assert(all.unref().to_set().contains(x));
                let i = choose|i: int| 0 <= i < all.len() && all.unref()[i] == x;
                assert(*all[i] == x);
                assert(list@.contains(x));
            }
            if list@.contains(x) {
                let i = choose|i: int| 0 <= i < all.len() && *all[i] == x;
                assert(all.unref()[i] == x);
                assert(all.unref().to_set().contains(x));
            }
        }
        assert(list@.to_set() =~= set@);
    }
    list
}

/// The cell that a number stands for.
pub(crate) fn cell_by_number(map: &GameMap, n: i64) -> (cell: Option<usize>)
    requires
        map.wf(),
    ensures
        cell == cell_named(map@, n),
        cell matches Some(c) ==> map@.has(c as int),
{
    map.get_cell(narrowed(n))
}

/// The cells that the elements of an array stand for.
fn cells_by_number(map: &GameMap, items: &Vec<Item>) -> (cells: Vec<usize>)
    requires
        map.wf(),
    ensures
        cells@ == cells_named(map@, items@),
{
    let mut cells: Vec<usize> = Vec::new();
    let mut i: usize = 0;
    assert(items@.take(0) =~= Seq::<Item>::empty());
    while i < items.len()
        invariant
            map.wf(),
            i <= items@.len(),
            cells@ == cells_named(map@, items@.take(i as int)),
        decreases items.len() - i,
    {
        assert(items@.take(i + 1).drop_last() =~= items@.take(i as int));
        let ghost before = cells@;
        match cell_by_number(map, items[i].long) {
            Some(c) => {
                cells.push(c);
                assert(cells@ =~= before + seq![c]);
            },
            None => {
                assert(cells@ =~= before + Seq::<usize>::empty());
            },
        }
        i += 1;
    }
    assert(items@.take(i as int) =~= items@);
    cells
}

/// Whether an argument names a cell of the board.
fn marks_cell(map: &GameMap, args: &[Arg]) -> (b: bool)
    requires
        map.wf(),
    ensures
        b == marks(map@, args@),
{
    if args.len() == 0 {
        return false;
    }
    match args[0].kind {
        ArgKind::Number => cell_by_number(map, args[0].long).is_some(),
        ArgKind::Array => cells_by_number(map, &args[0].items).len() > 0,
        _ => false,
    }
}

impl State {
    /// Whether a hook runs.
    #[must_use]
    pub fn is_in_hook(&self) -> (b: bool)
        ensures
            b == self@.in_hook(),
    {
        self.hook_phase != HookPhase::NoHook
    }

    /// Whether a hook before the fight runs.
    #[must_use]
    pub fn is_in_before_fight_hook(&self) -> (b: bool)
        ensures
            b == (self@.hook_phase == HookPhase::BeforeFight),
    {
        self.hook_phase == HookPhase::BeforeFight
    }

    /// The members of a side.
    fn side_members(&self, current: usize, side: Side, with_dead: bool) -> (list: Vec<usize>)
        requires
            self.wf(),
            current < self@.fighters.len(),
        ensures
            list@ == self@.members(current as int, side, with_dead),
            crate::fighter::all_below(list@, self@.fighters.len() as int),
    {
        let ghost w = self@;
        assert(w.fighters[current as int] == self.fighters@[current as int]@);
        let own: usize = self.fighters[current].team;
        let mut list: Vec<usize> = Vec::new();
        let mut t: usize = 0;
        while t < self.teams.len()
            invariant
                self.wf(),
                w == self@,
                t <= w.teams.len(),
                list@ == w.listed(side, own as int, with_dead, t as nat),
                crate::fighter::all_below(list@, w.fighters.len() as int),
            decreases self.teams.len() - t,
        {
            let taken: bool = match side {
                Side::Allies => t == own,
                Side::Enemies => t != own,
                Side::Everyone => true,
            };
            if taken {
                let ghost before = list@;
                let ghost members = w.teams[t as int].fighters;
                assert(w.teams[t as int] == self.teams@[t as int]@);
                assert(crate::fighter::all_below(members, w.fighters.len() as int));
                let mut i: usize = 0;
                assert(members.take(0) =~= Seq::<usize>::empty());
                assert(list@ =~= before + kept(members.take(0), w.fighters, with_dead));
                while i < self.teams[t].fighters.len()
                    invariant
                        self.wf(),
                        w == self@,
                        t < self.teams@.len(),
                        members == self.teams@[t as int].fighters@,
                        crate::fighter::all_below(members, w.fighters.len() as int),
                        i <= members.len(),
                        list@ == before + kept(members.take(i as int), w.fighters, with_dead),
                        crate::fighter::all_below(list@, w.fighters.len() as int),
                    decreases members.len() - i,
                {
                    let f: usize = self.teams[t].fighters[i];
                    assert(members.take(i + 1).drop_last() =~= members.take(i as int));
                    assert(members[i as int] < w.fighters.len());
                    assert(w.fighters[f as int] == self.fighters@[f as int]@);
                    if with_dead || !self.fighters[f].is_dead() {
                        list.push(f);
                    }
                    i += 1;
                    assert(list@ =~= before + kept(members.take(i as int), w.fighters, with_dead));
                }
                assert(members.take(i as int) =~= members);
            }
            t += 1;
        }
        list
    }

    /// The nearest of a list that stands on the board; -1 for none.
    fn nearest_of(&self, from: usize, list: &Vec<usize>, skip: Option<usize>) -> (nearest: i64)
        requires
            self.wf(),
            self@.board.has(from as int),
            crate::fighter::all_below(list@, self@.fighters.len() as int),
        ensures
            is_nearest(
                self@,
                from as int,
                standing(
                    list@,
                    self@.fighters,
                    match skip {
                        Some(s) => s as int,
                        None => -1,
                    },
                ),
                nearest as int,
            ),
    {
        let ghost w = self@;
        let ghost skipped = match skip {
            Some(s) => s as int,
            None => -1,
        };
        let mut best: i32 = -1;
        let mut nearest: i64 = -1;
        let mut i: usize = 0;
        assert(list@.take(0) =~= Seq::<usize>::empty());
        while i < list.len()
            invariant
                self.wf(),
                w == self@,
                w.board.has(from as int),
                crate::fighter::all_below(list@, w.fighters.len() as int),
                skipped == match skip {
                    Some(s) => s as int,
                    None => -1,
                },
                i <= list@.len(),
                nearest == -1 <==> best == -1,
                best >= -1,
                ({
                    let seen = standing(list@.take(i as int), w.fighters, skipped);
                    &&& is_nearest(w, from as int, seen, nearest as int)
                    &&& best == -1 <==> seen.len() == 0
                    &&& best != -1 ==> 0 <= nearest < w.fighters.len() && best == w.gap(
                        from as int,
                        nearest as int,
                    )
                }),
            decreases list.len() - i,
        {
            let f: usize = list[i];
            assert(list@.take(i + 1).drop_last() =~= list@.take(i as int));
            assert(list@[i as int] < w.fighters.len());
            assert(w.fighters[f as int] == self.fighters@[f as int]@);
            assert(w.fighters[f as int].fits(
                f as int,
                w.teams.len() as int,
                w.board.cells.len() as int,
                w.effects.len() as int,
            ));
            let ghost before = standing(list@.take(i as int), w.fighters, skipped);
            let ghost after = standing(list@.take(i + 1), w.fighters, skipped);
            let ghost last = nearest;
            let skipping: bool = match skip {
                Some(s) => s == f,
                None => false,
            };
            if !skipping {
                if let Some(c) = self.fighters[f].cell {
                    let d: i32 = self.map.get_distance_sq(from, c);
                    assert(after == before.push(f));
                    proof {
                        if before.len() > 0 {
                            let k = choose|k: int|
                                {
                                    &&& 0 <= k < before.len()
                                    &&& last == #[trigger] before[k]
                                    &&& forall|j: int|
                                        0 <= j < before.len() ==> w.gap(
                                            from as int,
                                            before[k] as int,
                                        ) < w.gap(from as int, #[trigger] before[j] as int) || (
                                        w.gap(from as int, before[k] as int) == w.gap(
                                            from as int,
                                            before[j] as int,
                                        ) && k <= j)
                                };
                            assert(after[k] == before[k]);
                            assert(forall|j: int|
                                0 <= j < before.len() ==> #[trigger] after[j] == before[j]);
                        }
                        assert(after[before.len() as int] == f);
                    }
                    if best == -1 || d < best {
                        best = d;
                        nearest = f as i64;
                    }
                }
            }
            i += 1;
        }
        assert(list@.take(i as int) =~= list@);
        nearest
    }

    /// The nearest living fighter of a side; -1 for none.
    fn nearest(&self, current: usize, side: Side, skip: Option<usize>) -> (nearest: i64)
        requires
            self.wf(),
            current < self@.fighters.len(),
        ensures
            self@.nearest_is(
                current as int,
                side,
                match skip {
                    Some(s) => s as int,
                    None => -1,
                },
                nearest as int,
            ),
    {
        let ghost w = self@;
        assert(w.fighters[current as int] == self.fighters@[current as int]@);
        assert(w.fighters[current as int].fits(
            current as int,
            w.teams.len() as int,
            w.board.cells.len() as int,
            w.effects.len() as int,
        ));
        match self.fighters[current].cell {
            Some(c) => {
                let list = self.side_members(current, side, false);
                self.nearest_of(c, &list, skip)
            },
            None => -1,
        }
    }

    /// The two cells that the first arguments stand for.
    fn cell_pair(&self, args: &[Arg]) -> (pair: Option<(usize, usize)>)
        requires
            self.wf(),
        ensures
            pair == self@.cell_pair(args@),
            pair matches Some(p) ==> self@.board.has(p.0 as int) && self@.board.has(p.1 as int),
    {
        match (
            cell_by_number(&self.map, long_arg(args, 0)),
            cell_by_number(&self.map, long_arg(args, 1)),
        ) {
            (Some(a), Some(b)) => Some((a, b)),
            _ => None,
        }
    }

    /// The cell of the fighter that a number stands for.
    fn cell_of_entity(&self, n: i64) -> (cell: Option<usize>)
        requires
            self.wf(),
        ensures
            cell == self@.cell_of_entity(n),
    {
        let id: i32 = narrowed(n);
        if id < 0 || id as u64 >= self.fighters.len() as u64 {
            None
        } else {
            assert(self@.fighters[id as int] == self.fighters@[id as int]@);
            self.fighters[id as usize].cell
        }
    }

    /// The cells that a line of sight takes for free.
    fn sight_ignores(&self, current: usize, args: &[Arg]) -> (cells: Vec<usize>)
        requires
            self.wf(),
            current < self@.fighters.len(),
        ensures
            cells@ == self@.sight_ignores(current as int, args@),
    {
        let ghost w = self@;
        assert(w.fighters[current as int] == self.fighters@[current as int]@);
        if args.len() <= 2 {
            return list_of(self.fighters[current].cell);
        }
        match args[2].kind {
            ArgKind::Number => list_of(self.cell_of_entity(args[2].long)),
            ArgKind::Array => {
                let mut cells: Vec<usize> = list_of(self.fighters[current].cell);
                let ghost own = cells@;
                let ghost items = args@[2].items@;
                let mut i: usize = 0;
                assert(items.take(0) =~= Seq::<Item>::empty());
                assert(cells@ =~= own + w.cells_of_entities(items.take(0)));
                while i < args[2].items.len()
                    invariant
                        self.wf(),
                        w == self@,
                        args@.len() > 2,
                        items == args@[2].items@,
                        i <= items.len(),
                        cells@ == own + w.cells_of_entities(items.take(i as int)),
                    decreases items.len() - i,
                {
                    assert(items.take(i + 1).drop_last() =~= items.take(i as int));
                    let item: Item = args[2].items[i];
                    if item.number {
                        if let Some(c) = self.cell_of_entity(item.long) {
                            cells.push(c);
                        }
                    }
                    i += 1;
                    assert(cells@ =~= own + w.cells_of_entities(items.take(i as int)));
                }
                assert(items.take(i as int) =~= items);
                cells
            },
            _ => list_of(self.fighters[current].cell),
        }
    }

    /// The cells that a path takes for free.
    fn path_ignores(&self, args: &[Arg]) -> (cells: Vec<usize>)
        requires
            self.wf(),
        ensures
            cells@ == self@.path_ignores(args@),
    {
        if args.len() <= 2 {
            return list_of(None);
        }
        match args[2].kind {
            ArgKind::Array => cells_by_number(&self.map, &args[2].items),
            ArgKind::Number => list_of(self.cell_of_entity(args[2].long)),
            _ => list_of(None),
        }
    }

    /// The fighter that an argument stands for.
    fn target(&self, current: usize, args: &[Arg], i: usize) -> (fid: Option<usize>)
        requires
            self.wf(),
            current < self@.fighters.len(),
        ensures
            match self@.target(current as int, args@, i as int) {
                Some(f) => fid == Some(f as usize) && f < self@.fighters.len(),
                None => fid is None,
            },
            fid matches Some(f) ==> f < self@.fighters.len(),
    {
        if i >= args.len() || args[i].kind == ArgKind::Null {
            Some(current)
        } else {
            let n: i64 = args[i].long;
            if n < 0 || n as u64 >= self.fighters.len() as u64 {
                None
            } else {
                Some(n as usize)
            }
        }
    }

    /// The fighter that an argument stands for, but nobody else before the
    /// fight.
    fn known(&self, current: usize, args: &[Arg]) -> (fid: Option<usize>)
        requires
            self.wf(),
            current < self@.fighters.len(),
        ensures
            match self@.known(current as int, args@) {
                Some(f) => fid == Some(f as usize) && f < self@.fighters.len(),
                None => fid is None,
            },
            fid matches Some(f) ==> f < self@.fighters.len(),
    {
        match self.target(current, args, 0) {
            Some(f) => if self.is_in_before_fight_hook() && f != current {
                None
            } else {
                Some(f)
            },
            None => None,
        }
    }
}

/// A cell or none, as a list.
fn list_of(cell: Option<usize>) -> (list: Vec<usize>)
    ensures
        list@ == as_list(cell),
{
    let mut list: Vec<usize> = Vec::new();
    if let Some(c) = cell {
        list.push(c);
    }
    assert(list@ =~= as_list(cell));
    list
}

/// A cell as an answer.
fn cell_answer(cell: Option<usize>) -> (answer: Answer)
    requires
        cell matches Some(c) ==> c <= i64::MAX,
    ensures
        answer@ == match cell {
            Some(c) => Reply::Int(c as int),
            None => Reply::Null,
        },
{
    match cell {
        Some(c) => Answer::Int(c as i64),
        None => Answer::Null,
    }
}

impl State {
    /// What a function answers of a cell.
    fn tell_cell(&self, call: Call, args: &[Arg]) -> (answer: Answer)
        requires
            self.wf(),
        ensures
            answer@ == self@.cell_reply(call, args@),
    {
        let ghost w = self@;
        proof {
            crate::map::lemma_cell_count_limit(w.board);
        }
        match call {
            Call::CellFromXy => {
                let x: i32 = narrowed(long_arg(args, 0)).wrapping_add(self.map.width - 1);
                cell_answer(self.map.get_cell_xy(x, narrowed(long_arg(args, 1))))
            },
            Call::CellX => match cell_by_number(&self.map, long_arg(args, 0)) {
                Some(c) => {
                    proof {
                        w.board.lemma_coords(c as int);
                    }
                    Answer::Int(self.map.cells[c].x as i64 - self.map.width as i64 + 1)
                },
                None => Answer::Null,
            },
            Call::CellY => match cell_by_number(&self.map, long_arg(args, 0)) {
                Some(c) => Answer::Int(self.map.cells[c].y as i64),
                None => Answer::Null,
            },
            Call::IsObstacle => Answer::Bool(
                match cell_by_number(&self.map, long_arg(args, 0)) {
                    Some(c) => !self.map.cells[c].walkable,
                    None => true,
                },
            ),
            Call::Obstacles => {
                let list = self.map.obstacles();
                proof {
                    w.board.lemma_obstacles_on_board(w.board.cells.len() as int);
                }
                id_list(&list)
            },
            Call::CellContent => Answer::Int(
                match cell_by_number(&self.map, long_arg(args, 0)) {
                    Some(c) => if !self.map.cells[c].walkable {
                        CELL_OBSTACLE
                    } else if self.entity_on(c).is_some() {
                        CELL_ENTITY
                    } else {
                        CELL_EMPTY
                    },
                    None => -1,
                },
            ),
            Call::CellDistance => Answer::Int(
                match self.cell_pair(args) {
                    Some(p) => self.map.get_cell_distance(p.0, p.1) as i64,
                    None => -1,
                },
            ),
            Call::Distance => Answer::Distance(
                match self.cell_pair(args) {
                    Some(p) => Some(self.map.get_distance_sq(p.0, p.1)),
                    None => None,
                },
            ),
            Call::OnSameLine => Answer::Bool(
                match self.cell_pair(args) {
                    Some(p) => self.map.in_line(p.0, p.1),
                    None => false,
                },
            ),
            Call::Mark => Answer::Bool(marks_cell(&self.map, args)),
            Call::MarkText => Answer::Bool(
                (args.len() > 0 && args[0].kind == ArgKind::Table) || marks_cell(&self.map, args),
            ),
            _ => Answer::Null,
        }
    }

    /// What a function answers of what a fighter can do.
    fn tell_strength(&self, current: usize, call: Call, args: &[Arg]) -> (answer: Answer)
        requires
            self.wf(),
            current < self@.fighters.len(),
            call matches Call::Stat(id) ==> id < STAT_COUNT,
        ensures
            answer@ == self@.strength_reply(current as int, call, args@),
    {
        match self.known(current, args) {
            None => Answer::Null,
            Some(fid) => {
                assert(self@.fighters[fid as int] == self.fighters@[fid as int]@);
                let f = &self.fighters[fid];
                match call {
                    Call::Life => Answer::Int(f.life as i64),
                    Call::TotalLife => Answer::Int(f.total_life as i64),
                    Call::Tp => Answer::Int(f.tp() as i64),
                    Call::Mp => Answer::Int(f.mp() as i64),
                    Call::Stat(id) => Answer::Int(f.stat(id) as i64),
                    Call::Weapon => match f.weapon {
                        Some(w) => Answer::Int(w as i64),
                        None => Answer::Null,
                    },
                    Call::Weapons => number_list(&f.weapons),
                    _ => Answer::Null,
                }
            },
        }
    }

    /// The living summons of a fighter.
    fn summons_of(&self, fid: usize) -> (list: Vec<usize>)
        requires
            self.wf(),
            fid < self@.fighters.len(),
        ensures
            list@ == summons_in(
                self@.teams[self@.fighters[fid as int].team as int].fighters,
                self@.fighters,
                fid,
            ),
            crate::fighter::all_below(list@, self@.fighters.len() as int),
    {
        let ghost w = self@;
        assert(w.fighters[fid as int] == self.fighters@[fid as int]@);
        assert(w.fighters[fid as int].fits(
            fid as int,
            w.teams.len() as int,
            w.board.cells.len() as int,
            w.effects.len() as int,
        ));
        let t: usize = self.fighters[fid].team;
        let ghost members = w.teams[t as int].fighters;
        assert(w.teams[t as int] == self.teams@[t as int]@);
        assert(crate::fighter::all_below(members, w.fighters.len() as int));
        let mut list: Vec<usize> = Vec::new();
        let mut i: usize = 0;
        assert(members.take(0) =~= Seq::<usize>::empty());
        assert(list@ =~= summons_in(members.take(0), w.fighters, fid));
        while i < self.teams[t].fighters.len()
            invariant
                self.wf(),
                w == self@,
                t < self.teams@.len(),
                members == self.teams@[t as int].fighters@,
                crate::fighter::all_below(members, w.fighters.len() as int),
                i <= members.len(),
                list@ == summons_in(members.take(i as int), w.fighters, fid),
                crate::fighter::all_below(list@, w.fighters.len() as int),
            decreases members.len() - i,
        {
            let f: usize = self.teams[t].fighters[i];
            assert(members.take(i + 1).drop_last() =~= members.take(i as int));
            assert(members[i as int] < w.fighters.len());
            assert(w.fighters[f as int] == self.fighters@[f as int]@);
            let own: bool = match self.fighters[f].summoner {
                Some(s) => s == fid,
                None => false,
            };
            if !self.fighters[f].is_dead() && own {
                list.push(f);
            }
            i += 1;
        }
        assert(members.take(i as int) =~= members);
        list
    }

    /// What a function answers of a fighter that anybody may know.
    fn tell_entity(&self, current: usize, call: Call, args: &[Arg]) -> (answer: Answer)
        requires
            self.wf(),
            current < self@.fighters.len(),
        ensures
            answer@ == self@.entity_reply(current as int, call, args@),
    {
        let ghost w = self@;
        let place: usize = match call {
            Call::Cooldown => 1,
            _ => 0,
        };
        match self.target(current, args, place) {
            None => match call {
                Call::IsStatic | Call::IsAlive | Call::IsDead => Answer::Bool(false),
                _ => Answer::Null,
            },
            Some(fid) => {
                assert(w.fighters[fid as int] == self.fighters@[fid as int]@);
                assert(w.fighters[fid as int].fits(
                    fid as int,
                    w.teams.len() as int,
                    w.board.cells.len() as int,
                    w.effects.len() as int,
                ));
                proof {
                    crate::map::lemma_cell_count_limit(w.board);
                }
                let f = &self.fighters[fid];
                match call {
                    Call::Cell => cell_answer(f.cell),
                    Call::IsStatic => Answer::Bool(f.has_state(EntityState::Static)),
                    Call::Name => Answer::Text(String::from_str(f.name.as_str())),
                    Call::Level => Answer::Int(f.level as i64),
                    Call::Team => Answer::Int(f.team as i64),
                    Call::IsAlive => Answer::Bool(!f.is_dead()),
                    Call::IsDead => Answer::Bool(f.is_dead()),
                    Call::Cooldown => Answer::Int(
                        self.chip_cooldown(fid, narrowed(long_arg(args, 0))) as i64,
                    ),
                    Call::Summons => {
                        let list = self.summons_of(fid);
                        id_list(&list)
                    },
                    Call::IsSummon => Answer::Bool(f.is_summon()),
                    Call::Summoner => match f.summoner {
                        Some(owner) => Answer::Int(
                            #[verifier::truncate]
                            (owner as i64),
                        ),
                        None => Answer::Int(-1),
                    },
                    Call::BirthTurn => Answer::Int(f.birth_turn as i64),
                    _ => Answer::Null,
                }
            },
        }
    }

    /// What a search for a path answers.
    fn tell_path(&self, args: &[Arg], length: bool) -> (answer: Answer)
        requires
            self.wf(),
        ensures
            self@.path_reply(args@, length, answer@),
    {
        let ghost w = self@;
        match self.cell_pair(args) {
            None => Answer::Null,
            Some(p) => {
                if p.0 == p.1 {
                    if length {
                        Answer::Int(0)
                    } else {
                        let none: Vec<i64> = Vec::new();
                        assert(none@.map_values(|n: i64| n as int) =~= Seq::<int>::empty());
                        Answer::List(none)
                    }
                } else {
                    let ignored = self.path_ignores(args);
                    let path = self.map.get_path_between(p.0, p.1, ignored.as_slice());
                    proof {
                        crate::map::lemma_cell_count_limit(w.board);
                        w.board.lemma_path_on_board(p.0 as int, seq![p.1], ignored@, path);
                    }
                    let answer = match &path {
                        Some(steps) => if length {
                            Answer::Int(steps.len() as i64)
                        } else {
                            id_list(steps)
                        },
                        None => Answer::Null,
                    };
                    assert(w.board.path_answer(p.0 as int, seq![p.1], w.path_ignores(args@), path));
                    answer
                }
            },
        }
    }

    /// What the search for a cell to use a chip from answers.
    fn tell_vantage(&self, current: usize, args: &[Arg]) -> (answer: Answer)
        requires
            self.wf(),
            current < self@.fighters.len(),
        ensures
            self@.vantage_reply(current as int, args@, answer@),
    {
        let ghost w = self@;
        let chip: i32 = match fit(long_arg(args, 0)) {
            Some(c) => c,
            None => {
                return Answer::Int(-1);
            },
        };
        let spec = match self.chip_specs.get(&chip) {
            Some(spec) => spec,
            None => {
                return Answer::Int(-1);
            },
        };
        let leek: i64 = long_arg(args, 1);
        if leek < 0 || leek as u64 >= self.fighters.len() as u64 {
            return Answer::Int(-1);
        }
        let target: usize = leek as usize;
        proof {
            assert(w.fighters[target as int] == self.fighters@[target as int]@);
            assert(w.fighters[target as int].fits(
                target as int,
                w.teams.len() as int,
                w.board.cells.len() as int,
                w.effects.len() as int,
            ));
            assert(w.fighters[current as int] == self.fighters@[current as int]@);
            assert(w.fighters[current as int].fits(
                current as int,
                w.teams.len() as int,
                w.board.cells.len() as int,
                w.effects.len() as int,
            ));
            crate::map::lemma_cell_count_limit(w.board);
        }
        match (self.fighters[target].cell, self.fighters[current].cell) {
            (Some(goal), Some(own)) => {
                let mut ignore: Vec<usize> = Vec::new();
                ignore.push(own);
                assert(ignore@ =~= seq![own]);
                let casts = self.map.get_possible_cast_cells_for_target(
                    spec.min_range,
                    spec.max_range,
                    spec.launch_type,
                    spec.needs_los,
                    goal,
                    ignore.as_slice(),
                );
                if casts.len() == 0 {
                    return Answer::Int(-1);
                }
                if crate::map::has_cell(casts.as_slice(), own) {
                    return Answer::Int(own as i64);
                }
                let path = self.map.get_astar_path(own, casts.as_slice(), ignore.as_slice());
                proof {
                    w.board.lemma_path_on_board(own as int, casts@, ignore@, path);
                }
                let answer = match &path {
                    Some(steps) => if steps.len() == 0 {
                        Answer::Int(own as i64)
                    } else {
                        let last: usize = steps[steps.len() - 1];
                        Answer::Int(last as i64)
                    },
                    None => Answer::Int(-1),
                };
                assert(w.board.path_answer(own as int, casts@, seq![own], path));
                answer
            },
            _ => Answer::Int(-1),
        }
    }

    /// What a function that only reads the fight answers.
    pub(crate) fn tell(&self, current: usize, call: Call, args: &[Arg]) -> (answer: Answer)
        requires
            self.wf(),
            current < self@.fighters.len(),
            call matches Call::Stat(id) ==> id < STAT_COUNT,
        ensures
            self@.tells(current as int, call, args@, answer@),
    {
        let ghost w = self@;
        match call {
            Call::Turn => Answer::Int(self.order.turn() as i64),
            Call::Winner => Answer::Int(self.win_team as i64),
            Call::Entity => Answer::Int(current as i64),
            Call::NearestEnemy => {
                let n: i64 = self.nearest(current, Side::Enemies, None);
                assert(w.nearest_is(current as int, Side::Enemies, -1, n as int));
                Answer::Int(n)
            },
            Call::NearestAlly => {
                let n: i64 = self.nearest(current, Side::Allies, Some(current));
                assert(w.nearest_is(current as int, Side::Allies, current as int, n as int));
                Answer::Int(n)
            },
            Call::Members(side, with_dead) => {
                let list = self.side_members(current, side, with_dead);
                id_list(&list)
            },
            Call::Count(side) => {
                let list = self.side_members(current, side, true);
                Answer::Int(
                    #[verifier::truncate]
                    (list.len() as i64),
                )
            },
            Call::CellFromXy
            | Call::CellX
            | Call::CellY
            | Call::IsObstacle
            | Call::Obstacles
            | Call::CellContent
            | Call::CellDistance
            | Call::Distance
            | Call::OnSameLine
            | Call::Mark
            | Call::MarkText
            | Call::ClearMarks => self.tell_cell(call, args),
            Call::LineOfSight => match self.cell_pair(args) {
                Some(p) => {
                    let ignored = self.sight_ignores(current, args);
                    Answer::Bool(self.map.verify_los(p.0, p.1, true, ignored.as_slice()))
                },
                None => Answer::Null,
            },
            Call::Path => self.tell_path(args, false),
            Call::PathLength => self.tell_path(args, true),
            Call::CellToUseChip => self.tell_vantage(current, args),
            Call::Chips => match self.known(current, args) {
                None => Answer::Null,
                Some(fid) => {
                    assert(w.fighters[fid as int] == self.fighters@[fid as int]@);
                    let list = sorted(&self.fighters[fid].chips);
                    assert(crate::flow::ascending(list@));
                    number_list(&list)
                },
            },
            Call::Life
            | Call::TotalLife
            | Call::Tp
            | Call::Mp
            | Call::Stat(_)
            | Call::Weapon
            | Call::Weapons => self.tell_strength(current, call, args),
            _ => self.tell_entity(current, call, args),
        }
    }
}

} // verus!
