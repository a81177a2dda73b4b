//! Attacks: the cells they cover, the fighters they hit, and what their
//! effects do turn by turn.

use crate::actions::{Action, DamageType};
use crate::attack::{Area, AttackType, EffectParams, EffectTargets, EffectType, EntityState};
use crate::fighter::{Fighter, FighterView};
use crate::impact::Blow;
use crate::map::Board;
use crate::number::Real;
use crate::world::{EffectView, State, World};
use vstd::prelude::*;

verus! {

/// Whether a line may hit a fighter. A line that spares those whom nobody
/// summoned hits nobody.
pub open spec fn may_hit(targets: i32, caster: FighterView, target: FighterView) -> bool {
    &&& crate::attack::holds(targets, crate::attack::TARGET_ENEMIES) || caster.team == target.team
    &&& crate::attack::holds(targets, crate::attack::TARGET_ALLIES) || caster.team != target.team
    &&& crate::attack::holds(targets, crate::attack::TARGET_CASTER) || caster.fid != target.fid
    &&& crate::attack::holds(targets, crate::attack::TARGET_NON_SUMMONS)
}

/// Where the fighters stand that are, or are not, of a team.
pub open spec fn team_cells(fighters: Seq<FighterView>, team: usize, own: bool) -> Seq<usize>
    decreases fighters.len(),
{
    if fighters.len() == 0 {
        Seq::empty()
    } else {
        let before = team_cells(fighters.drop_last(), team, own);
        let f = fighters.last();
        match f.cell {
            Some(c) => if (f.team == team) == own {
                before.push(c)
            } else {
                before
            },
            None => before,
        }
    }
}

impl Board {
    /// The cells of a shape around a centre that are on the board and no
    /// obstacle.
    pub open spec fn shaped(self, center: int, shape: Seq<(int, int)>) -> Seq<usize>
        decreases shape.len(),
    {
        if shape.len() == 0 {
            Seq::empty()
        } else {
            let before = self.shaped(center, shape.drop_last());
            match self.step(center, shape.last().0, shape.last().1) {
                Some(c) => if self.walkable(c as int) {
                    before.push(c)
                } else {
                    before
                },
                None => before,
            }
        }
    }

    /// The direction of a beam from one cell through another: straight along
    /// an axis, or none. A beam onto its own cell goes up the second axis.
    pub open spec fn beam_heading(self, from: int, to: int) -> Option<(int, int)> {
        if self.x(from) == self.x(to) {
            Some(
                (
                    0,
                    if self.y(from) > self.y(to) {
                        -1int
                    } else {
                        1int
                    },
                ),
            )
        } else if self.y(from) == self.y(to) {
            Some(
                (
                    if self.x(from) > self.x(to) {
                        -1int
                    } else {
                        1int
                    },
                    0,
                ),
            )
        } else {
            None
        }
    }

    /// The cells of a beam from the `i`-th to the `last`: up to the edge of
    /// the board, and up to the first obstacle where the beam needs sight.
    pub open spec fn beam(
        self,
        from: int,
        dx: int,
        dy: int,
        i: int,
        last: int,
        needs_los: bool,
    ) -> Seq<usize>
        decreases last - i + 1,
    {
        if i > last {
            Seq::empty()
        } else {
            match self.ray(from, dx, dy, i) {
                Some(c) => if needs_los && !self.walkable(c as int) {
                    Seq::empty()
                } else {
                    seq![c] + self.beam(from, dx, dy, i + 1, last, needs_los)
                },
                None => Seq::empty(),
            }
        }
    }

    /// Whether the first entity on a line is met after `k` steps, and none
    /// before.
    pub open spec fn first_meets(
        self,
        from: int,
        target: int,
        min_range: int,
        max_range: int,
        k: int,
    ) -> bool {
        let dx = self.heading(from, target).0;
        let dy = self.heading(from, target).1;
        self.meets(from, dx, dy, min_range, max_range, k) && forall|j: int|
            j < k ==> !#[trigger] self.meets(from, dx, dy, min_range, max_range, j)
    }

    /// The first occupied cell on a straight line within a range.
    pub open spec fn first_met(self, from: int, target: int, min_range: int, max_range: int)
        -> Option<usize> {
        if exists|k: int| #[trigger] self.first_meets(from, target, min_range, max_range, k) {
            let k = choose|k: int| #[trigger]
                self.first_meets(from, target, min_range, max_range, k);
            self.ray(
                from,
                self.heading(from, target).0,
                self.heading(from, target).1,
                k,
            )
        } else {
            None
        }
    }

    /// Where a slide from a cell towards a target ends; nowhere where it would
    /// run off the board.
    pub open spec fn slide_goal(self, entity: int, target: int, dx: int, dy: int) -> Option<usize> {
        if exists|k: int| #[trigger] self.slide_stops(entity, target, dx, dy, k) {
            let k = choose|k: int| #[trigger] self.slide_stops(entity, target, dx, dy, k);
            self.ray(entity, dx, dy, k)
        } else {
            None
        }
    }

    /// Where a push towards a target ends: it moves only what it moves away
    /// from the caster.
    pub open spec fn push_goal(self, entity: int, target: int, caster: int) -> Option<usize> {
        let d = self.heading(entity, target);
        if self.heading(caster, entity) == d {
            self.slide_goal(entity, target, d.0, d.1)
        } else {
            Some(entity as usize)
        }
    }

    /// Where a pull towards a target ends: it moves only what it moves
    /// nearer to the caster.
    pub open spec fn attract_goal(self, entity: int, target: int, caster: int) -> Option<usize> {
        let d = self.heading(entity, target);
        if self.heading(entity, caster) == d {
            self.slide_goal(entity, target, d.0, d.1)
        } else {
            Some(entity as usize)
        }
    }

    /// The cell that a line meets first is one.
    proof fn lemma_first_met(self, from: int, target: int, min_range: int, max_range: int, k: int)
        requires
            self.first_meets(from, target, min_range, max_range, k),
        ensures
            self.first_met(from, target, min_range, max_range) == self.ray(
                from,
                self.heading(from, target).0,
                self.heading(from, target).1,
                k,
            ),
    {
        let j = choose|j: int| #[trigger]
            self.first_meets(from, target, min_range, max_range, j);
        let dx = self.heading(from, target).0;
        let dy = self.heading(from, target).1;
        assert(self.meets(from, dx, dy, min_range, max_range, j));
        assert(self.meets(from, dx, dy, min_range, max_range, k));
        assert(j == k);
    }

    /// The end of a slide is its end.
    proof fn lemma_slide_goal(self, entity: int, target: int, dx: int, dy: int, k: int)
        requires
            self.slide_stops(entity, target, dx, dy, k),
        ensures
            self.slide_goal(entity, target, dx, dy) == self.ray(entity, dx, dy, k),
    {
        let j = choose|j: int| #[trigger] self.slide_stops(entity, target, dx, dy, j);
        self.lemma_slide_unique(entity, target, dx, dy, j, k);
    }
}

impl World {
    /// The part of the power that arrives on a cell.
    pub open spec fn power_on(self, area: Area, target: int, cell: int) -> Real {
        if area.fades() {
            crate::power::spread(self.board.distance(target, cell))
        } else {
            crate::power::one()
        }
    }

    /// The cells that an attack covers, in the order in which they are
    /// struck.
    pub open spec fn area_cells(
        self,
        area: Area,
        caster: int,
        launch: int,
        target: int,
        min_range: int,
        max_range: int,
        needs_los: bool,
    ) -> Seq<usize> {
        match area.shape() {
            Some(shape) => self.board.shaped(target, shape),
            None => match area {
                Area::LaserLine => match self.board.beam_heading(launch, target) {
                    Some(d) => self.board.beam(launch, d.0, d.1, min_range, max_range, needs_los),
                    None => Seq::empty(),
                },
                Area::FirstInLine => match self.board.first_met(
                    launch,
                    target,
                    min_range,
                    max_range,
                ) {
                    Some(c) => seq![c],
                    None => Seq::empty(),
                },
                Area::Enemies => team_cells(self.fighters, self.fighters[caster].team, false),
                Area::Allies => team_cells(self.fighters, self.fighters[caster].team, true),
                _ => seq![target as usize],
            },
        }
    }

    /// The living fighters on cells, each with the part of the power that
    /// arrives there.
    pub open spec fn covered(self, cells: Seq<usize>, area: Area, target: int) -> Seq<(usize, Real)>
        decreases cells.len(),
    {
        if cells.len() == 0 {
            Seq::empty()
        } else {
            let before = self.covered(cells.drop_last(), area, target);
            match self.entity_on(cells.last()) {
                Some(fid) => if self.fighters[fid as int].is_dead() {
                    before
                } else {
                    before.push((fid, self.power_on(area, target, cells.last() as int)))
                },
                None => before,
            }
        }
    }

    /// Whether an effect of an item is on a fighter.
    pub open spec fn has_effect(self, fid: int, item_id: i32) -> bool {
        exists|i: int|
            0 <= i < self.fighters[fid].effects.len() && self.effects[(
            #[trigger] self.fighters[fid].effects[i]) as int].item_id == item_id
    }

    /// The first `n` of the covered fighters are pulled, or pushed. A slide off
    /// the board is only noted.
    pub open spec fn dragged(
        self,
        hit: Seq<(usize, Real)>,
        n: nat,
        target: int,
        launch: int,
        pull: bool,
    ) -> World
        decreases n,
    {
        if n == 0 {
            self
        } else {
            let w = self.dragged(hit, (n - 1) as nat, target, launch, pull);
            let fid = hit[n - 1].0 as int;
            match w.fighters[fid].cell {
                Some(c) => {
                    let goal = if pull {
                        w.board.attract_goal(c as int, target, launch)
                    } else {
                        w.board.push_goal(c as int, target, launch)
                    };
                    match goal {
                        Some(g) => w.slid(fid, g),
                        None => World { unmodelled: true, ..w },
                    }
                },
                None => w,
            }
        }
    }

    /// Whether a line strikes a covered fighter.
    pub open spec fn is_target(self, line: EffectParams, caster: int, fid: int, item_id: i32) -> bool {
        &&& !self.fighters[fid].is_dead()
        &&& may_hit(line.targets@, self.fighters[caster], self.fighters[fid])
        &&& !(crate::attack::holds(line.modifiers@, crate::attack::MODIFIER_ON_CASTER) && fid
            == caster)
        &&& !(crate::attack::holds(line.modifiers@, crate::attack::MODIFIER_NOT_REPLACEABLE)
            && self.has_effect(fid, item_id))
    }

    /// The covered fighters that a line strikes.
    pub open spec fn targets_of(
        self,
        line: EffectParams,
        caster: int,
        item_id: i32,
        hit: Seq<(usize, Real)>,
    ) -> Seq<(usize, Real)>
        decreases hit.len(),
    {
        if hit.len() == 0 {
            Seq::empty()
        } else {
            let before = self.targets_of(line, caster, item_id, hit.drop_last());
            if self.is_target(line, caster, hit.last().0 as int, item_id) {
                before.push(hit.last())
            } else {
                before
            }
        }
    }

    /// A line strikes the first `n` of its targets; the world after it, and
    /// what it has done in all.
    pub open spec fn struck_all(
        self,
        line: EffectParams,
        b: Blow,
        targets: Seq<(usize, Real)>,
        n: nat,
    ) -> (World, i32)
        decreases n,
    {
        if n == 0 {
            (self, 0)
        } else {
            let before = self.struck_all(line, b, targets, (n - 1) as nat);
            let blow = Blow { target: targets[n - 1].0, aoe: targets[n - 1].1, ..b };
            (
                before.0.struck(line, blow),
                before.1.wrapping_add(before.0.strike_value(line, blow)),
            )
        }
    }
}

/// Fighters that are named once more where they are not named yet.
pub open spec fn named(list: Seq<usize>, targets: Seq<(usize, Real)>) -> Seq<usize>
    decreases targets.len(),
{
    if targets.len() == 0 {
        list
    } else {
        let before = named(list, targets.drop_last());
        if before.contains(targets.last().0) {
            before
        } else {
            before.push(targets.last().0)
        }
    }
}

/// What an attack needs to know of itself.
pub struct Attack {
    pub caster: usize,
    pub launch: usize,
    pub target: usize,
    pub critical: bool,
    pub item_id: i32,
    pub attack_type: AttackType,
    /// The covered fighters and the parts of the power that arrive.
    pub hit: Seq<(usize, Real)>,
    pub jet: Real,
}

/// An attack that is under way: the world so far, what the last line has done
/// in all, how far effects spread, and who was affected.
pub struct Volley {
    pub world: World,
    pub previous: i32,
    pub propagate: i32,
    pub affected: Seq<usize>,
}

impl Volley {
    /// One line of the attack.
    pub open spec fn line(self, a: Attack, line: EffectParams) -> Volley {
        let caster = a.caster as int;
        if self.world.fighters[caster].is_dead() {
            self
        } else {
            let w = match line.effect {
                EffectType::Attract => self.world.dragged(
                    a.hit,
                    a.hit.len(),
                    a.target as int,
                    a.launch as int,
                    true,
                ),
                EffectType::Push => self.world.dragged(
                    a.hit,
                    a.hit.len(),
                    a.target as int,
                    a.launch as int,
                    false,
                ),
                _ => self.world,
            };
            match line.effect {
                EffectType::Teleport => Volley {
                    world: w.placed(caster, a.target),
                    affected: self.affected.push(a.caster),
                    ..self
                },
                EffectType::Propagation => Volley { propagate: line.whole() as i32, ..self },
                _ => {
                    let targets = w.targets_of(line, caster, a.item_id, a.hit);
                    let b = Blow {
                        aoe: crate::power::one(),
                        critical: a.critical,
                        target: a.caster,
                        caster: a.caster,
                        item_id: a.item_id,
                        attack_type: a.attack_type,
                        jet: a.jet,
                        stackable: crate::attack::holds(
                            line.modifiers@,
                            crate::attack::MODIFIER_STACKABLE,
                        ),
                        previous: self.previous,
                        count: if crate::attack::holds(
                            line.modifiers@,
                            crate::attack::MODIFIER_MULTIPLIED_BY_TARGETS,
                        ) {
                            targets.len() as i32
                        } else {
                            1
                        },
                        propagate: self.propagate,
                    };
                    let affected = named(self.affected, targets);
                    if crate::attack::holds(line.modifiers@, crate::attack::MODIFIER_ON_CASTER) {
                        Volley {
                            world: w.struck(line, b),
                            previous: 0,
                            affected: affected.push(a.caster),
                            ..self
                        }
                    } else {
                        Volley {
                            world: w.struck_all(line, b, targets, targets.len()).0,
                            previous: w.struck_all(line, b, targets, targets.len()).1,
                            affected,
                            ..self
                        }
                    }
                },
            }
        }
    }

    /// The first `n` lines of the attack.
    pub open spec fn lines(self, a: Attack, effects: Seq<EffectParams>, n: nat) -> Volley
        decreases n,
    {
        if n == 0 {
            self
        } else {
            self.lines(a, effects, (n - 1) as nat).line(a, effects[n - 1])
        }
    }
}

impl World {
    /// The attack that a caster makes on a cell, after chance was drawn.
    pub open spec fn attack(
        self,
        caster: int,
        launch: usize,
        target: usize,
        critical: bool,
        area: Area,
        item_id: i32,
        attack_type: AttackType,
        min_range: int,
        max_range: int,
        needs_los: bool,
    ) -> Attack {
        let cells = self.area_cells(
            area,
            caster,
            launch as int,
            target as int,
            min_range,
            max_range,
            needs_los,
        );
        Attack {
            caster: caster as usize,
            launch,
            target,
            critical,
            item_id,
            attack_type,
            hit: self.covered(cells, area, target as int),
            jet: crate::power::chance(crate::rng::fraction(crate::rng::successor(self.rng))),
        }
    }

    /// An attack on a cell: chance is drawn once, and every line strikes. A
    /// caster that stands nowhere does nothing.
    pub open spec fn attacked(
        self,
        caster: int,
        target: usize,
        critical: bool,
        area: Area,
        effects: Seq<EffectParams>,
        item_id: i32,
        attack_type: AttackType,
        min_range: int,
        max_range: int,
        needs_los: bool,
    ) -> Volley {
        match self.fighters[caster].cell {
            None => Volley { world: self, previous: 0, propagate: 0, affected: Seq::empty() },
            Some(launch) => {
                let a = self.attack(
                    caster,
                    launch,
                    target,
                    critical,
                    area,
                    item_id,
                    attack_type,
                    min_range,
                    max_range,
                    needs_los,
                );
                Volley {
                    world: World { rng: crate::rng::successor(self.rng), ..self },
                    previous: 0,
                    propagate: 0,
                    affected: Seq::empty(),
                }.lines(a, effects, effects.len())
            },
        }
    }
}

/// Whether a line may hit a fighter.
#[must_use]
pub fn filter_target(targets: EffectTargets, caster: &Fighter, target: &Fighter) -> (b: bool)
    ensures
        b == may_hit(targets@, caster@, target@),
{
    if !targets.contains(crate::attack::TARGET_ENEMIES) && caster.team != target.team {
        return false;
    }
    if !targets.contains(crate::attack::TARGET_ALLIES) && caster.team == target.team {
        return false;
    }
    if !targets.contains(crate::attack::TARGET_CASTER) && caster.fid == target.fid {
        return false;
    }
    targets.contains(crate::attack::TARGET_NON_SUMMONS)
}

impl State {
    /// The part of the power that arrives on a cell.
    fn power_for_cell(&self, area: Area, target: usize, cell: usize) -> (r: Real)
        requires
            self.wf(),
            self@.board.has(target as int),
            self@.board.has(cell as int),
        ensures
            r == self@.power_on(area, target as int, cell as int),
            r.within(200),
    {
        if area.attenuates() {
            crate::power::power_at(self.map.get_cell_distance(target, cell))
        } else {
            crate::power::full_power()
        }
    }

    /// The cells of a shape around a centre.
    fn shape_cells(&self, center: usize, shape: &Vec<[i32; 2]>) -> (cells: Vec<usize>)
        requires
            self.wf(),
            self@.board.has(center as int),
        ensures
            cells@ == self@.board.shaped(center as int, crate::mask::offsets(shape@)),
            forall|i: int| 0 <= i < cells@.len() ==> self@.board.has(#[trigger] cells@[i] as int),
    {
        let ghost board = self@.board;
        let ghost offsets = crate::mask::offsets(shape@);
        let mut cells: Vec<usize> = Vec::new();
        let mut i: usize = 0;
        proof {
            board.lemma_coords(center as int);
            assert(offsets.take(0) =~= Seq::<(int, int)>::empty());
        }
        let cx: i64 = self.map.cells[center].x as i64;
        let cy: i64 = self.map.cells[center].y as i64;
        while i < shape.len()
            invariant
                self.wf(),
                board == self@.board,
                board.has(center as int),
                cx == board.x(center as int),
                cy == board.y(center as int),
                -100000 <= cx <= 100000,
                -100000 <= cy <= 100000,
                offsets == crate::mask::offsets(shape@),
                i <= shape@.len(),
                cells@ == board.shaped(center as int, offsets.take(i as int)),
                forall|j: int| 0 <= j < cells@.len() ==> board.has(#[trigger] cells@[j] as int),
            decreases shape.len() - i,
        {
            let o: [i32; 2] = shape[i];
            assert(offsets.take(i + 1).drop_last() =~= offsets.take(i as int));
            assert(offsets[i as int] == (shape@[i as int][0] as int, shape@[i as int][1] as int));
            let x: i64 = cx + o[0] as i64;
            let y: i64 = cy + o[1] as i64;
            if -1_000_000 <= x && x <= 1_000_000 && -1_000_000 <= y && y <= 1_000_000 {
                if let Some(c) = self.map.get_cell_xy(x as i32, y as i32) {
                    if self.map.cells[c].walkable {
                        cells.push(c);
                    }
                }
            }
            i += 1;
        }
        assert(offsets.take(i as int) =~= offsets);
        cells
    }

    /// The cells of a beam.
    fn beam_cells(
        &self,
        from: usize,
        dx: i32,
        dy: i32,
        min_range: i32,
        max_range: i32,
        needs_los: bool,
    ) -> (cells: Vec<usize>)
        requires
            self.wf(),
            self@.board.has(from as int),
            -1 <= dx <= 1,
            -1 <= dy <= 1,
        ensures
            cells@ == self@.board.beam(
                from as int,
                dx as int,
                dy as int,
                min_range as int,
                max_range as int,
                needs_los,
            ),
            forall|i: int| 0 <= i < cells@.len() ==> self@.board.has(#[trigger] cells@[i] as int),
    {
        let ghost board = self@.board;
        let ghost goal = board.beam(
            from as int,
            dx as int,
            dy as int,
            min_range as int,
            max_range as int,
            needs_los,
        );
        proof {
            board.lemma_coords(from as int);
        }
        let fx: i64 = self.map.cells[from].x as i64;
        let fy: i64 = self.map.cells[from].y as i64;
        let mut cells: Vec<usize> = Vec::new();
        let mut i: i64 = min_range as i64;
        assert(goal =~= cells@ + goal);
        while i <= max_range as i64
            invariant
                self.wf(),
                board == self@.board,
                board.has(from as int),
                fx == board.x(from as int),
                fy == board.y(from as int),
                -100000 <= fx <= 100000,
                -100000 <= fy <= 100000,
                -1 <= dx <= 1,
                -1 <= dy <= 1,
                i >= i32::MIN,
                goal == board.beam(
                    from as int,
                    dx as int,
                    dy as int,
                    min_range as int,
                    max_range as int,
                    needs_los,
                ),
                goal == cells@ + board.beam(
                    from as int,
                    dx as int,
                    dy as int,
                    i as int,
                    max_range as int,
                    needs_los,
                ),
                forall|j: int| 0 <= j < cells@.len() ==> board.has(#[trigger] cells@[j] as int),
            decreases max_range - i + 1,
        {
            assert(-0x8000_0000 <= i * dx <= 0x8000_0000) by (nonlinear_arith)
                requires
                    -1 <= dx <= 1,
                    -0x8000_0000 <= i <= 0x7fff_ffff,
            ;
            assert(-0x8000_0000 <= i * dy <= 0x8000_0000) by (nonlinear_arith)
                requires
                    -1 <= dy <= 1,
                    -0x8000_0000 <= i <= 0x7fff_ffff,
            ;
            let x: i64 = fx + i * dx as i64;
            let y: i64 = fy + i * dy as i64;
            if x < -1_000_000 || x > 1_000_000 || y < -1_000_000 || y > 1_000_000 {
                assert(board.ray(from as int, dx as int, dy as int, i as int) is None);
                assert(goal =~= cells@);
                return cells;
            }
            match self.map.get_cell_xy(x as i32, y as i32) {
                None => {
                    assert(goal =~= cells@);
                    return cells;
                },
                Some(c) => {
                    if needs_los && !self.map.cells[c].walkable {
                        assert(goal =~= cells@);
                        return cells;
                    }
                    cells.push(c);
                    i += 1;
                    assert(goal =~= cells@ + board.beam(
                        from as int,
                        dx as int,
                        dy as int,
                        i as int,
                        max_range as int,
                        needs_los,
                    ));
                },
            }
        }
        assert(goal =~= cells@);
        cells
    }

    /// Where the fighters stand that are, or are not, of a team.
    fn cells_of_team(&self, team: usize, own: bool) -> (cells: Vec<usize>)
        requires
            self.wf(),
        ensures
            cells@ == team_cells(self@.fighters, team, own),
            forall|i: int| 0 <= i < cells@.len() ==> self@.board.has(#[trigger] cells@[i] as int),
    {
        let ghost w = self@;
        let mut cells: Vec<usize> = Vec::new();
        let mut i: usize = 0;
        assert(w.fighters.take(0) =~= Seq::<FighterView>::empty());
        while i < self.fighters.len()
            invariant
                self.wf(),
                w == self@,
                i <= w.fighters.len(),
                cells@ == team_cells(w.fighters.take(i as int), team, own),
                forall|j: int| 0 <= j < cells@.len() ==> w.board.has(#[trigger] cells@[j] as int),
            decreases w.fighters.len() - i,
        {
            assert(w.fighters.take(i + 1).drop_last() =~= w.fighters.take(i as int));
            assert(w.fighters[i as int] == self.fighters@[i as int]@);
            assert(w.fighters[i as int].fits(
                i as int,
                w.teams.len() as int,
                w.board.cells.len() as int,
                w.effects.len() as int,
            ));
            if let Some(c) = self.fighters[i].cell {
                if (self.fighters[i].team == team) == own {
                    cells.push(c);
                }
            }
            i += 1;
        }
        assert(w.fighters.take(i as int) =~= w.fighters);
        cells
    }

    /// The cells that an attack covers.
    fn area_cells(
        &self,
        area: Area,
        caster: usize,
        launch: usize,
        target: usize,
        min_range: i32,
        max_range: i32,
        needs_los: bool,
    ) -> (cells: Vec<usize>)
        requires
            self.wf(),
            caster < self@.fighters.len(),
            self@.board.has(launch as int),
            self@.board.has(target as int),
        ensures
            cells@ == self@.area_cells(
                area,
                caster as int,
                launch as int,
                target as int,
                min_range as int,
                max_range as int,
                needs_los,
            ),
            forall|i: int| 0 <= i < cells@.len() ==> self@.board.has(#[trigger] cells@[i] as int),
    {
        let ghost w = self@;
        if let Some(shape) = area.mask() {
            return self.shape_cells(target, &shape);
        }
        assert(w.fighters[caster as int] == self.fighters@[caster as int]@);
        match area {
            Area::LaserLine => {
                let lx: i32 = self.map.cells[launch].x;
                let ly: i32 = self.map.cells[launch].y;
                let tx: i32 = self.map.cells[target].x;
                let ty: i32 = self.map.cells[target].y;
                if lx == tx {
                    let dy: i32 = if ly > ty {
                        -1
                    } else {
                        1
                    };
                    self.beam_cells(launch, 0, dy, min_range, max_range, needs_los)
                } else if ly == ty {
                    let dx: i32 = if lx > tx {
                        -1
                    } else {
                        1
                    };
                    self.beam_cells(launch, dx, 0, min_range, max_range, needs_los)
                } else {
                    Vec::new()
                }
            },
            Area::FirstInLine => {
                let mut cells: Vec<usize> = Vec::new();
                if let Some(c) = self.first_in_line(launch, target, min_range, max_range) {
                    cells.push(c);
                    assert(cells@ =~= seq![c]);
                }
                cells
            },
            Area::Enemies => self.cells_of_team(self.fighters[caster].team, false),
            Area::Allies => self.cells_of_team(self.fighters[caster].team, true),
            _ => {
                let mut cells: Vec<usize> = Vec::new();
                cells.push(target);
                assert(cells@ =~= seq![target]);
                cells
            },
        }
    }

    /// The first occupied cell on a straight line within a range.
    pub(crate) fn first_in_line(&self, from: usize, target: usize, min_range: i32, max_range: i32)
        -> (found: Option<usize>)
        requires
            self.wf(),
            self@.board.has(from as int),
            self@.board.has(target as int),
        ensures
            found == self@.board.first_met(
                from as int,
                target as int,
                min_range as int,
                max_range as int,
            ),
            found matches Some(c) ==> self@.board.has(c as int),
    {
        let found = self.map.get_first_entity(from, target, min_range, max_range);
        proof {
            let b = self@.board;
            let dx = b.heading(from as int, target as int).0;
            let dy = b.heading(from as int, target as int).1;
            match found {
                Some(c) => {
                    let k = choose|k: int| #[trigger]
                        b.meets(from as int, dx, dy, min_range as int, max_range as int, k)
                            && b.ray(from as int, dx, dy, k) == Some(c) && forall|j: int|
                            j < k ==> !#[trigger] b.meets(
                                from as int,
                                dx,
                                dy,
                                min_range as int,
                                max_range as int,
                                j,
                            );
                    assert(b.first_meets(
                        from as int,
                        target as int,
                        min_range as int,
                        max_range as int,
                        k,
                    ));
                    b.lemma_first_met(
                        from as int,
                        target as int,
                        min_range as int,
                        max_range as int,
                        k,
                    );
                },
                None => {
                    assert forall|k: int| !#[trigger]
                        b.first_meets(
                            from as int,
                            target as int,
                            min_range as int,
                            max_range as int,
                            k,
                        ) by {
                        assert(!b.meets(
                            from as int,
                            dx,
                            dy,
                            min_range as int,
                            max_range as int,
                            k,
                        ));
                    }
                },
            }
        }
        found
    }

    /// Where a push, or a pull, of a fighter on a cell ends.
    fn drag_goal(&self, cell: usize, target: usize, launch: usize, pull: bool) -> (goal: Option<
        usize,
    >)
        requires
            self.wf(),
            self@.board.has(cell as int),
            self@.board.has(target as int),
            self@.board.has(launch as int),
        ensures
            goal matches Some(c) ==> self@.board.has(c as int),
            goal == if pull {
                self@.board.attract_goal(cell as int, target as int, launch as int)
            } else {
                self@.board.push_goal(cell as int, target as int, launch as int)
            },
    {
        let end: Option<usize> = if pull {
            self.map.attract_end(cell, target, launch)
        } else {
            self.map.push_end(cell, target, launch)
        };
        proof {
            let b = self@.board;
            let dx = b.heading(cell as int, target as int).0;
            let dy = b.heading(cell as int, target as int).1;
            if exists|k: int| #[trigger] b.slide_stops(cell as int, target as int, dx, dy, k) {
                if let Some(c) = end {
                    if (pull && b.heading(cell as int, launch as int) == (dx, dy)) || (!pull
                        && b.heading(launch as int, cell as int) == (dx, dy)) {
                        let k = choose|k: int| #[trigger]
                            b.slide_stops(cell as int, target as int, dx, dy, k) && b.ray(
                                cell as int,
                                dx,
                                dy,
                                k,
                            ) == Some(c);
                        b.lemma_slide_goal(cell as int, target as int, dx, dy, k);
                    }
                }
            }
        }
        end
    }
}

impl World {
    /// What an effect does at the beginning of its target's turn.
    pub open spec fn effect_ticked(self, ei: int) -> World {
        let e = self.effects[ei];
        let t = self.fighters[e.target as int];
        match e.effect {
            EffectType::Poison => {
                let damage = if t.has_state(EntityState::Invincible) {
                    0
                } else {
                    crate::power::at_most(e.value as int, t.life as int)
                };
                if damage > 0 {
                    let erosion = crate::power::eroded(damage, e.erosion_rate);
                    self.logged(
                        crate::impact::damage_row(
                            DamageType::Poison,
                            e.target as int,
                            damage,
                            erosion,
                        ),
                    ).hurt(e.target as int, damage as i32, erosion as i32, Some(e.caster))
                } else {
                    self
                }
            },
            EffectType::Heal => if t.has_state(EntityState::Unhealable) {
                self
            } else {
                let life = crate::power::at_most(
                    e.value as int,
                    t.total_life.wrapping_sub(t.life) as int,
                );
                self.logged(crate::impact::heal_row(e.target as int, life)).healed(
                    e.target as int,
                    life as i32,
                )
            },
            EffectType::Aftereffect => {
                let value = crate::power::at_most(e.value as int, t.life as int);
                let erosion = crate::power::eroded(value, e.erosion_rate);
                self.with_effect(ei, EffectView { value: value as i32, ..e }).logged(
                    crate::impact::damage_row(
                        DamageType::Poison,
                        e.target as int,
                        value,
                        erosion,
                    ),
                ).hurt(e.target as int, value as i32, erosion as i32, Some(e.caster))
            },
            _ => self,
        }
    }

    /// One turn less for the effects that a fighter has cast, from the `i`-th
    /// on; those that are over leave their targets.
    pub open spec fn expired_from(self, fid: int, i: int) -> World
        decreases self.fighters[fid].launched_effects.len() - i,
            when self.wf() && 0 <= fid < self.fighters.len() && 0 <= i
    {
        let list = self.fighters[fid].launched_effects;
        if i >= list.len() {
            self
        } else {
            let ei = list[i];
            let e = self.effects[ei as int];
            let turns = if e.turns == -1 {
                e.turns
            } else {
                e.turns.wrapping_sub(1)
            };
            let w = self.with_effect(ei as int, EffectView { turns, ..e });
            proof {
                lemma_expiry_shrinks(self, fid, i, turns);
            }
            if turns == 0 {
                let off = w.effect_removed(e.target as int, ei);
                off.with_fighter(
                    fid,
                    FighterView { launched_effects: list.remove(i), ..off.fighters[fid] },
                ).expired_from(fid, i)
            } else {
                w.expired_from(fid, i + 1)
            }
        }
    }

    /// The effects of a list do what they do in a turn, from the `i`-th on;
    /// if the fighter survives, the effects that it has cast grow older.
    pub open spec fn ticked_from(self, fid: int, list: Seq<usize>, i: int) -> World
        decreases list.len() - i,
    {
        if i >= list.len() {
            self.expired_from(fid, 0)
        } else {
            let w = self.effect_ticked(list[i] as int);
            if w.fighters[fid].is_dead() {
                w
            } else {
                w.ticked_from(fid, list, i + 1)
            }
        }
    }

    /// The turn of a fighter begins.
    pub open spec fn turn_started(self, fid: int) -> World {
        let w = self.with_fighter(fid, self.fighters[fid].cooled());
        w.ticked_from(fid, w.fighters[fid].effects, 0)
    }

    /// The lines of an item, as long as it has at least two.
    pub open spec fn spreading_lines(self, attack_type: AttackType, item_id: i32) -> Option<
        (EffectParams, EffectParams),
    > {
        match attack_type {
            AttackType::Weapon => if self.weapon_specs.contains_key(item_id)
                && self.weapon_specs[item_id].effects@.len() >= 2 {
                Some(
                    (
                        self.weapon_specs[item_id].effects@[0],
                        self.weapon_specs[item_id].effects@[1],
                    ),
                )
            } else {
                None
            },
            AttackType::Chip => if self.chip_specs.contains_key(item_id)
                && self.chip_specs[item_id].effects@.len() >= 2 {
                Some(
                    (
                        self.chip_specs[item_id].effects@[0],
                        self.chip_specs[item_id].effects@[1],
                    ),
                )
            } else {
                None
            },
        }
    }

    /// Whether an effect on a fighter reaches another.
    pub open spec fn reaches(self, fid: int, other: int, e: EffectView, first: EffectParams) -> bool {
        let near = match (self.fighters[fid].cell, self.fighters[other].cell) {
            (Some(a), Some(b)) => if self.fighters[fid].is_dead()
                || self.fighters[other].is_dead() {
                999
            } else {
                self.board.distance(a as int, b as int)
            },
            _ => 999,
        };
        &&& other != fid
        &&& near <= e.propagate
        &&& !(crate::attack::holds(first.modifiers@, crate::attack::MODIFIER_NOT_REPLACEABLE)
            && self.has_effect(other, e.item_id))
    }

    /// The effect strikes those of the first `n` fighters whom it reaches.
    pub open spec fn spread_to(
        self,
        fid: int,
        e: EffectView,
        lines: (EffectParams, EffectParams),
        jet: Real,
        n: nat,
    ) -> World
        decreases n,
    {
        if n == 0 {
            self
        } else {
            let w = self.spread_to(fid, e, lines, jet, (n - 1) as nat);
            if w.reaches(fid, n - 1, e, lines.0) {
                w.struck(
                    lines.1,
                    Blow {
                        aoe: crate::power::one(),
                        critical: e.critical,
                        target: (n - 1) as usize,
                        caster: e.caster,
                        item_id: e.item_id,
                        attack_type: e.attack_type,
                        jet,
                        stackable: crate::attack::holds(
                            lines.0.modifiers@,
                            crate::attack::MODIFIER_STACKABLE,
                        ),
                        previous: 0,
                        count: 0,
                        propagate: e.propagate,
                    },
                )
            } else {
                w
            }
        }
    }

    /// An effect on a fighter spreads to those around it: the first line of
    /// its item says how, and the second strikes them. An effect that does
    /// not spread, or whose item has no two lines, does nothing.
    pub open spec fn effect_spread(self, fid: int, ei: int) -> World {
        let e = self.effects[ei];
        if e.propagate <= 0 {
            self
        } else {
            match self.spreading_lines(e.attack_type, e.item_id) {
                Some(lines) => World {
                    rng: crate::rng::successor(self.rng),
                    ..self
                }.spread_to(
                    fid,
                    e,
                    lines,
                    crate::power::chance(crate::rng::fraction(crate::rng::successor(self.rng))),
                    self.fighters.len(),
                ),
                None => self,
            }
        }
    }

    /// The first `n` effects of a list spread.
    pub open spec fn all_spread(self, fid: int, list: Seq<usize>, n: nat) -> World
        decreases n,
    {
        if n == 0 {
            self
        } else {
            self.all_spread(fid, list, (n - 1) as nat).effect_spread(fid, list[n - 1] as int)
        }
    }

    /// The effects on a fighter spread.
    pub open spec fn effects_spread(self, fid: int) -> World {
        self.all_spread(fid, self.fighters[fid].effects, self.fighters[fid].effects.len())
    }
}

/// Taking off an effect that is over leaves its caster with one less.
pub proof fn lemma_expiry_shrinks(w: World, fid: int, i: int, turns: i32)
    requires
        w.wf(),
        0 <= fid < w.fighters.len(),
        0 <= i < w.fighters[fid].launched_effects.len(),
    ensures
        ({
            let list = w.fighters[fid].launched_effects;
            let e = w.effects[list[i] as int];
            let off = w.with_effect(list[i] as int, EffectView { turns, ..e }).effect_removed(
                e.target as int,
                list[i],
            );
            off.fighters.len() == w.fighters.len() && off.fighters[fid].launched_effects == list
        }),
{
    let list = w.fighters[fid].launched_effects;
    assert(w.fighters[fid].fits(
        fid,
        w.teams.len() as int,
        w.board.cells.len() as int,
        w.effects.len() as int,
    ));
    assert(list[i] < w.effects.len());
    assert(w.effects[list[i] as int].fits(w.fighters.len() as int));
}

impl State {
    /// Whether an effect of an item is on a fighter.
    #[must_use]
    pub(crate) fn has_effect(&self, fid: usize, item_id: i32) -> (b: bool)
        requires
            self.wf(),
            fid < self@.fighters.len(),
        ensures
            b == self@.has_effect(fid as int, item_id),
    {
        let ghost w = self@;
        let ghost list = w.fighters[fid as int].effects;
        assert(w.fighters[fid as int] == self.fighters@[fid as int]@);
        assert(w.fighters[fid as int].fits(
            fid as int,
            w.teams.len() as int,
            w.board.cells.len() as int,
            w.effects.len() as int,
        ));
        let mut i: usize = 0;
        while i < self.fighters[fid].effects.len()
            invariant
                self.wf(),
                w == self@,
                fid < w.fighters.len(),
                list == w.fighters[fid as int].effects,
                list == self.fighters@[fid as int].effects@,
                crate::fighter::all_below(list, w.effects.len() as int),
                i <= list.len(),
                forall|j: int| 0 <= j < i ==> w.effects[(#[trigger] list[j]) as int].item_id != item_id,
            decreases list.len() - i,
        {
            let ei: usize = self.fighters[fid].effects[i];
            assert(list[i as int] < w.effects.len());
            assert(w.effects[ei as int] == self.effects@[ei as int]@);
            if self.effects[ei].item_id == item_id {
                return true;
            }
            i += 1;
        }
        false
    }

    /// The living fighters on cells, with the parts of the power that arrive.
    fn cover(&self, cells: &Vec<usize>, area: Area, target: usize) -> (hit: Vec<(usize, Real)>)
        requires
            self.wf(),
            self@.board.has(target as int),
            forall|i: int| 0 <= i < cells@.len() ==> self@.board.has(#[trigger] cells@[i] as int),
        ensures
            hit@ == self@.covered(cells@, area, target as int),
            hits_fit(hit@, self@.fighters.len() as int),
    {
        let ghost w = self@;
        let mut hit: Vec<(usize, Real)> = Vec::new();
        let mut i: usize = 0;
        assert(cells@.take(0) =~= Seq::<usize>::empty());
        while i < cells.len()
            invariant
                self.wf(),
                w == self@,
                w.board.has(target as int),
                forall|i: int| 0 <= i < cells@.len() ==> w.board.has(#[trigger] cells@[i] as int),
                i <= cells@.len(),
                hit@ == w.covered(cells@.take(i as int), area, target as int),
                hits_fit(hit@, w.fighters.len() as int),
            decreases cells.len() - i,
        {
            let c: usize = cells[i];
            assert(cells@.take(i + 1).drop_last() =~= cells@.take(i as int));
            assert(w.board.has(cells@[i as int] as int));
            if let Some(fid) = self.entity_on(c) {
                assert(w.occupancy.contains_key(c));
                assert(w.fighters[fid as int] == self.fighters@[fid as int]@);
                if !self.fighters[fid].is_dead() {
                    hit.push((fid, self.power_for_cell(area, target, c)));
                }
            }
            i += 1;
        }
        assert(cells@.take(i as int) =~= cells@);
        hit
    }

    /// Pulls, or pushes, the covered fighters.
    fn drag_all(&mut self, hit: &Vec<(usize, Real)>, target: usize, launch: usize, pull: bool)
        requires
            old(self).wf(),
            hits_fit(hit@, old(self)@.fighters.len() as int),
            old(self)@.board.has(target as int),
            old(self)@.board.has(launch as int),
        ensures
            final(self).wf(),
            final(self)@.extends(old(self)@),
            final(self)@ == old(self)@.dragged(
                hit@,
                hit@.len(),
                target as int,
                launch as int,
                pull,
            ),
    {
        let ghost w = self@;
        let mut i: usize = 0;
        while i < hit.len()
            invariant
                self.wf(),
                self@.extends(w),
                hits_fit(hit@, w.fighters.len() as int),
                w.board.has(target as int),
                w.board.has(launch as int),
                i <= hit@.len(),
                self@ == w.dragged(hit@, i as nat, target as int, launch as int, pull),
            decreases hit.len() - i,
        {
            let fid: usize = hit[i].0;
            assert(hit@[i as int].0 < w.fighters.len());
            assert(self@.fighters[fid as int] == self.fighters@[fid as int]@);
            assert(self@.fighters[fid as int].fits(
                fid as int,
                self@.teams.len() as int,
                self@.board.cells.len() as int,
                self@.effects.len() as int,
            ));
            if let Some(c) = self.fighters[fid].cell {
                match self.drag_goal(c, target, launch, pull) {
                    Some(goal) => {
                        self.slide_entity(fid, goal);
                    },
                    None => {
                        self.note_unmodelled();
                    },
                }
            }
            i += 1;
        }
    }

    /// The covered fighters that a line strikes.
    fn line_targets(
        &self,
        line: &EffectParams,
        caster: usize,
        item_id: i32,
        hit: &Vec<(usize, Real)>,
    ) -> (targets: Vec<(usize, Real)>)
        requires
            self.wf(),
            caster < self@.fighters.len(),
            hits_fit(hit@, self@.fighters.len() as int),
        ensures
            targets@ == self@.targets_of(*line, caster as int, item_id, hit@),
            hits_fit(targets@, self@.fighters.len() as int),
    {
        let ghost w = self@;
        let on_caster: bool = line.modifiers.contains(crate::attack::MODIFIER_ON_CASTER);
        let keep: bool = line.modifiers.contains(crate::attack::MODIFIER_NOT_REPLACEABLE);
        let mut targets: Vec<(usize, Real)> = Vec::new();
        let mut i: usize = 0;
        assert(hit@.take(0) =~= Seq::<(usize, Real)>::empty());
        assert(w.fighters[caster as int] == self.fighters@[caster as int]@);
        while i < hit.len()
            invariant
                self.wf(),
                w == self@,
                caster < w.fighters.len(),
                w.fighters[caster as int] == self.fighters@[caster as int]@,
                hits_fit(hit@, w.fighters.len() as int),
                on_caster == crate::attack::holds(
                    line.modifiers@,
                    crate::attack::MODIFIER_ON_CASTER,
                ),
                keep == crate::attack::holds(
                    line.modifiers@,
                    crate::attack::MODIFIER_NOT_REPLACEABLE,
                ),
                i <= hit@.len(),
                targets@ == w.targets_of(*line, caster as int, item_id, hit@.take(i as int)),
                hits_fit(targets@, w.fighters.len() as int),
            decreases hit.len() - i,
        {
            let fid: usize = hit[i].0;
            assert(hit@[i as int].0 < w.fighters.len());
            assert(hit@.take(i + 1).drop_last() =~= hit@.take(i as int));
            assert(w.fighters[fid as int] == self.fighters@[fid as int]@);
            if !self.fighters[fid].is_dead() && filter_target(
                line.targets,
                &self.fighters[caster],
                &self.fighters[fid],
            ) && !(on_caster && fid == caster) && !(keep && self.has_effect(fid, item_id)) {
                targets.push(hit[i]);
            }
            i += 1;
        }
        assert(hit@.take(i as int) =~= hit@);
        targets
    }

    /// Lets a line strike its targets; returns what it has done in all.
    fn strike_targets(&mut self, line: &EffectParams, b: Blow, targets: &Vec<(usize, Real)>) -> (
    total: i32)
        requires
            old(self).wf(),
            line.wf(),
            b.fits(old(self)@.fighters.len() as int),
            hits_fit(targets@, old(self)@.fighters.len() as int),
        ensures
            final(self).wf(),
            final(self)@.extends(old(self)@),
            final(self)@ == old(self)@.struck_all(*line, b, targets@, targets@.len()).0,
            total == old(self)@.struck_all(*line, b, targets@, targets@.len()).1,
    {
        let ghost w = self@;
        let mut total: i32 = 0;
        let mut i: usize = 0;
        while i < targets.len()
            invariant
                self.wf(),
                self@.extends(w),
                line.wf(),
                b.fits(w.fighters.len() as int),
                hits_fit(targets@, w.fighters.len() as int),
                i <= targets@.len(),
                self@ == w.struck_all(*line, b, targets@, i as nat).0,
                total == w.struck_all(*line, b, targets@, i as nat).1,
            decreases targets.len() - i,
        {
            assert(targets@[i as int].0 < w.fighters.len());
            let mut blow: Blow = b;
            blow.target = targets[i].0;
            blow.aoe = targets[i].1;
            total = total.wrapping_add(self.create_effect(line, blow));
            i += 1;
        }
        total
    }

    /// Lets a line of an attack happen.
    fn apply_attack_line(
        &mut self,
        line: &EffectParams,
        Ghost(a): Ghost<Attack>,
        caster: usize,
        launch: usize,
        target: usize,
        b: Blow,
        hit: &Vec<(usize, Real)>,
        affected: &mut Vec<usize>,
    ) -> (result: (i32, i32))
        requires
            old(self).wf(),
            line.wf(),
            b.fits(old(self)@.fighters.len() as int),
            hits_fit(hit@, old(self)@.fighters.len() as int),
            old(self)@.board.has(target as int),
            old(self)@.board.has(launch as int),
            b.target == caster,
            b.caster == caster,
            b.aoe == crate::power::one(),
            a == (Attack {
                caster,
                launch,
                target,
                critical: b.critical,
                item_id: b.item_id,
                attack_type: b.attack_type,
                hit: hit@,
                jet: b.jet,
            }),
        ensures
            final(self).wf(),
            final(self)@.extends(old(self)@),
            ({
                let v = (Volley {
                    world: old(self)@,
                    previous: b.previous,
                    propagate: b.propagate,
                    affected: old(affected)@,
                }).line(a, *line);
                &&& final(self)@ == v.world
                &&& result.0 == v.previous
                &&& result.1 == v.propagate
                &&& final(affected)@ == v.affected
            }),
    {
        let ghost w = self@;
        assert(w.fighters[caster as int] == self.fighters@[caster as int]@);
        if self.fighters[caster].is_dead() {
            return (b.previous, b.propagate);
        }
        match line.effect {
            EffectType::Attract => {
                self.drag_all(hit, target, launch, true);
            },
            EffectType::Push => {
                self.drag_all(hit, target, launch, false);
            },
            _ => {},
        }
        match line.effect {
            EffectType::Teleport => {
                self.teleport_entity(caster, target);
                affected.push(caster);
                return (b.previous, b.propagate);
            },
            EffectType::Propagation => {
                return (b.previous, line.value1.trunc_i32());
            },
            _ => {},
        }
        let targets: Vec<(usize, Real)> = self.line_targets(line, caster, b.item_id, hit);
        name_targets(affected, &targets);
        let mut blow: Blow = b;
        blow.stackable = line.modifiers.contains(crate::attack::MODIFIER_STACKABLE);
        blow.count = if line.modifiers.contains(crate::attack::MODIFIER_MULTIPLIED_BY_TARGETS) {
            targets.len() as i32
        } else {
            1
        };
        if line.modifiers.contains(crate::attack::MODIFIER_ON_CASTER) {
            affected.push(caster);
            let _ = self.create_effect(line, blow);
            (0, b.propagate)
        } else {
            let total: i32 = self.strike_targets(line, blow, &targets);
            (total, b.propagate)
        }
    }

    /// Lets an attack happen on a cell; returns who was affected. What nothing
    /// models is noted in [`State::unmodelled`].
    pub fn apply_on_cell(
        &mut self,
        caster: usize,
        target_cell: usize,
        critical: bool,
        area: Area,
        effects: &[EffectParams],
        item_id: i32,
        attack_type: AttackType,
        min_range: i32,
        max_range: i32,
        needs_los: bool,
    ) -> (affected: Vec<usize>)
        requires
            old(self).wf(),
            caster < old(self)@.fighters.len(),
            old(self)@.board.has(target_cell as int),
            crate::world::lines_wf(effects@),
        ensures
            final(self).wf(),
            final(self)@.extends(old(self)@),
            ({
                let v = old(self)@.attacked(
                    caster as int,
                    target_cell,
                    critical,
                    area,
                    effects@,
                    item_id,
                    attack_type,
                    min_range as int,
                    max_range as int,
                    needs_los,
                );
                final(self)@ == v.world && affected@ == v.affected
            }),
    {
        let ghost w = self@;
        let mut affected: Vec<usize> = Vec::new();
        assert(w.fighters[caster as int] == self.fighters@[caster as int]@);
        assert(w.fighters[caster as int].fits(
            caster as int,
            w.teams.len() as int,
            w.board.cells.len() as int,
            w.effects.len() as int,
        ));
        let launch: usize = match self.fighters[caster].cell {
            Some(c) => c,
            None => {
                return affected;
            },
        };
        let cells: Vec<usize> = self.area_cells(
            area,
            caster,
            launch,
            target_cell,
            min_range,
            max_range,
            needs_los,
        );
        let hit: Vec<(usize, Real)> = self.cover(&cells, area, target_cell);
        let draw: i64 = self.rng.draw();
        let jet: Real = crate::power::chance_of(draw);
        let ghost a = w.attack(
            caster as int,
            launch,
            target_cell,
            critical,
            area,
            item_id,
            attack_type,
            min_range as int,
            max_range as int,
            needs_los,
        );
        let ghost first = Volley {
            world: World { rng: crate::rng::successor(w.rng), ..w },
            previous: 0,
            propagate: 0,
            affected: Seq::empty(),
        };
        proof {
            assert(self@ =~= first.world);
            assert(affected@ =~= Seq::<usize>::empty());
        }
        let mut previous: i32 = 0;
        let mut propagate: i32 = 0;
        let mut i: usize = 0;
        while i < effects.len()
            invariant
                self.wf(),
                self@.extends(w),
                caster < w.fighters.len(),
                w.board.has(target_cell as int),
                w.board.has(launch as int),
                hits_fit(hit@, w.fighters.len() as int),
                jet.within(200),
                crate::world::lines_wf(effects@),
                a == (Attack {
                    caster,
                    launch,
                    target: target_cell,
                    critical,
                    item_id,
                    attack_type,
                    hit: hit@,
                    jet,
                }),
                i <= effects@.len(),
                self@ == first.lines(a, effects@, i as nat).world,
                previous == first.lines(a, effects@, i as nat).previous,
                propagate == first.lines(a, effects@, i as nat).propagate,
                affected@ == first.lines(a, effects@, i as nat).affected,
            decreases effects.len() - i,
        {
            let b: Blow = Blow {
                aoe: crate::power::full_power(),
                critical,
                target: caster,
                caster,
                item_id,
                attack_type,
                jet,
                stackable: false,
                previous,
                count: 1,
                propagate,
            };
            assert(effects@[i as int].wf());
            let result: (i32, i32) = self.apply_attack_line(
                &effects[i],
                Ghost(a),
                caster,
                launch,
                target_cell,
                b,
                &hit,
                &mut affected,
            );
            previous = result.0;
            propagate = result.1;
            i += 1;
        }
        affected
    }

    /// Lets an effect do what it does at the beginning of its target's turn.
    pub fn apply_start_turn_effect(&mut self, ei: usize)
        requires
            old(self).wf(),
            ei < old(self)@.effects.len(),
        ensures
            final(self).wf(),
            final(self)@.extends(old(self)@),
            final(self)@ == old(self)@.effect_ticked(ei as int),
    {
        let ghost w = self@;
        let ghost e = w.effects[ei as int];
        assert(e == self.effects@[ei as int]@);
        assert(e.fits(w.fighters.len() as int));
        let target: usize = self.effects[ei].target;
        let caster: usize = self.effects[ei].caster;
        let value: i32 = self.effects[ei].value;
        let rate: Real = self.effects[ei].erosion_rate;
        assert(w.fighters[target as int] == self.fighters@[target as int]@);
        let life: i32 = self.fighters[target].life;
        let capped: i32 = if value > life {
            life
        } else {
            value
        };
        match self.effects[ei].effect {
            EffectType::Poison => {
                let damage: i32 = if self.fighters[target].has_state(EntityState::Invincible) {
                    0
                } else {
                    capped
                };
                if damage > 0 {
                    let erosion: i32 = crate::power::erosion_of(damage, rate);
                    self.log(
                        Action::Damage {
                            damage_type: DamageType::Poison,
                            target_id: target as i64,
                            pv: damage,
                            erosion,
                        },
                    );
                    self.remove_life(target, damage, erosion, Some(caster));
                }
            },
            EffectType::Heal => {
                if !self.fighters[target].has_state(EntityState::Unhealable) {
                    let room: i32 = self.fighters[target].total_life.wrapping_sub(life);
                    let gain: i32 = if value > room {
                        room
                    } else {
                        value
                    };
                    self.log(Action::Heal { target_id: target as i64, life: gain });
                    self.heal(target, gain);
                }
            },
            EffectType::Aftereffect => {
                self.effects[ei].value = capped;
                proof {
                    let w1 = w.with_effect(ei as int, EffectView { value: capped, ..e });
                    assert(self@.effects =~= w1.effects);
                    assert(self@ =~= w1);
                }
                let erosion: i32 = crate::power::erosion_of(capped, rate);
                self.log(
                    Action::Damage {
                        damage_type: DamageType::Poison,
                        target_id: target as i64,
                        pv: capped,
                        erosion,
                    },
                );
                self.remove_life(target, capped, erosion, Some(caster));
            },
            _ => {},
        }
    }

    /// Takes one turn off the effects that a fighter has cast.
    fn expire_effects(&mut self, fid: usize)
        requires
            old(self).wf(),
            fid < old(self)@.fighters.len(),
        ensures
            final(self).wf(),
            final(self)@.extends(old(self)@),
            final(self)@ == old(self)@.expired_from(fid as int, 0),
    {
        let ghost w = self@;
        let ghost goal = w.expired_from(fid as int, 0);
        let mut i: usize = 0;
        while i < self.fighters[fid].launched_effects.len()
            invariant
                self.wf(),
                self@.extends(w),
                fid < w.fighters.len(),
                self@.expired_from(fid as int, i as int) == goal,
            decreases self@.fighters[fid as int].launched_effects.len() - i,
        {
            let ghost now = self@;
            let ghost list = now.fighters[fid as int].launched_effects;
            assert(now.fighters[fid as int] == self.fighters@[fid as int]@);
            assert(now.fighters[fid as int].fits(
                fid as int,
                now.teams.len() as int,
                now.board.cells.len() as int,
                now.effects.len() as int,
            ));
            let ei: usize = self.fighters[fid].launched_effects[i];
            assert(list[i as int] < now.effects.len());
            let ghost e = now.effects[ei as int];
            assert(e == self.effects@[ei as int]@);
            assert(e.fits(now.fighters.len() as int));
            if self.effects[ei].turns != -1 {
                self.effects[ei].turns = self.effects[ei].turns.wrapping_sub(1);
            }
            let turns: i32 = self.effects[ei].turns;
            proof {
                let w1 = now.with_effect(ei as int, EffectView { turns, ..e });
                assert(self@.effects =~= w1.effects);
                assert(self@ =~= w1);
                lemma_expiry_shrinks(now, fid as int, i as int, turns);
            }
            if turns == 0 {
                let target: usize = self.effects[ei].target;
                self.remove_effect(target, ei);
                let ghost off = self@;
                assert(off.fighters[fid as int] == self.fighters@[fid as int]@);
                let _ = self.fighters[fid].launched_effects.remove(i);
                proof {
                    let w2 = off.with_fighter(
                        fid as int,
                        FighterView {
                            launched_effects: list.remove(i as int),
                            ..off.fighters[fid as int]
                        },
                    );
                    assert(self@.fighters =~= w2.fighters);
                    assert(self@ =~= w2);
                }
            } else {
                i += 1;
            }
        }
        assert(self@.fighters[fid as int] == self.fighters@[fid as int]@);
    }

    /// Begins the turn of a fighter.
    pub(crate) fn start_turn(&mut self, fid: usize)
        requires
            old(self).wf(),
            fid < old(self)@.fighters.len(),
        ensures
            final(self).wf(),
            final(self)@.extends(old(self)@),
            final(self)@ == old(self)@.turn_started(fid as int),
    {
        let ghost w = self@;
        assert(w.fighters[fid as int] == self.fighters@[fid as int]@);
        self.fighters[fid].apply_cooldown();
        let ghost w0 = w.with_fighter(fid as int, w.fighters[fid as int].cooled());
        proof {
            assert(self@.fighters =~= w0.fighters);
            assert(self@ =~= w0);
            assert(w0.fighters[fid as int] == self.fighters@[fid as int]@);
            assert(w0.fighters[fid as int].fits(
                fid as int,
                w0.teams.len() as int,
                w0.board.cells.len() as int,
                w0.effects.len() as int,
            ));
        }
        let list: Vec<usize> = crate::lists::copy_list(&self.fighters[fid].effects);
        let mut i: usize = 0;
        while i < list.len()
            invariant
                self.wf(),
                self@.extends(w),
                fid < w.fighters.len(),
                crate::fighter::all_below(list@, w.effects.len() as int),
                w == old(self)@,
                self@.ticked_from(fid as int, list@, i as int) == w0.ticked_from(
                    fid as int,
                    list@,
                    0,
                ),
                w.turn_started(fid as int) == w0.ticked_from(fid as int, list@, 0),
            decreases list.len() - i,
        {
            assert(list@[i as int] < w.effects.len());
            self.apply_start_turn_effect(list[i]);
            assert(self@.fighters[fid as int] == self.fighters@[fid as int]@);
            if self.fighters[fid].is_dead() {
                return;
            }
            i += 1;
        }
        self.expire_effects(fid);
    }

    /// The first two lines of an item.
    fn lines_to_spread(&self, attack_type: AttackType, item_id: i32) -> (lines: Option<
        (EffectParams, EffectParams),
    >)
        requires
            self.wf(),
        ensures
            lines == self@.spreading_lines(attack_type, item_id),
            lines matches Some(l) ==> l.0.wf() && l.1.wf(),
    {
        broadcast use vstd::std_specs::btree::group_btree_axioms;

        match attack_type {
            AttackType::Weapon => match self.weapon_specs.get(&item_id) {
                Some(spec) => {
                    if spec.effects.len() >= 2 {
                        assert(self@.weapon_specs.contains_key(item_id));
                        assert(crate::world::lines_wf(spec.effects@));
                        Some((spec.effects[0], spec.effects[1]))
                    } else {
                        None
                    }
                },
                None => None,
            },
            AttackType::Chip => match self.chip_specs.get(&item_id) {
                Some(spec) => {
                    if spec.effects.len() >= 2 {
                        assert(self@.chip_specs.contains_key(item_id));
                        assert(crate::world::lines_wf(spec.effects@));
                        Some((spec.effects[0], spec.effects[1]))
                    } else {
                        None
                    }
                },
                None => None,
            },
        }
    }

    /// Whether an effect on a fighter reaches another.
    fn effect_reaches(
        &self,
        fid: usize,
        other: usize,
        propagate: i32,
        item_id: i32,
        first: &EffectParams,
        Ghost(e): Ghost<EffectView>,
    ) -> (b: bool)
        requires
            self.wf(),
            fid < self@.fighters.len(),
            other < self@.fighters.len(),
            e.propagate == propagate,
            e.item_id == item_id,
        ensures
            b == self@.reaches(fid as int, other as int, e, *first),
    {
        let ghost w = self@;
        assert(w.fighters[fid as int] == self.fighters@[fid as int]@);
        assert(w.fighters[other as int] == self.fighters@[other as int]@);
        assert(w.fighters[fid as int].fits(
            fid as int,
            w.teams.len() as int,
            w.board.cells.len() as int,
            w.effects.len() as int,
        ));
        assert(w.fighters[other as int].fits(
            other as int,
            w.teams.len() as int,
            w.board.cells.len() as int,
            w.effects.len() as int,
        ));
        if other == fid {
            return false;
        }
        let near: i32 = match (self.fighters[fid].cell, self.fighters[other].cell) {
            (Some(a), Some(b)) => {
                if self.fighters[fid].is_dead() || self.fighters[other].is_dead() {
                    999
                } else {
                    self.map.get_cell_distance(a, b)
                }
            },
            _ => 999,
        };
        near <= propagate && !(first.modifiers.contains(
            crate::attack::MODIFIER_NOT_REPLACEABLE,
        ) && self.has_effect(other, item_id))
    }

    /// Lets an effect on a fighter spread.
    fn spread_effect(&mut self, fid: usize, ei: usize)
        requires
            old(self).wf(),
            fid < old(self)@.fighters.len(),
            ei < old(self)@.effects.len(),
        ensures
            final(self).wf(),
            final(self)@.extends(old(self)@),
            final(self)@ == old(self)@.effect_spread(fid as int, ei as int),
    {
        let ghost w = self@;
        let e: crate::world::EffectInstance = self.effects[ei];
        assert(w.effects[ei as int] == e@);
        assert(w.effects[ei as int].fits(w.fighters.len() as int));
        if e.propagate <= 0 {
            return;
        }
        let lines: (EffectParams, EffectParams) = match self.lines_to_spread(
            e.attack_type,
            e.item_id,
        ) {
            Some(lines) => lines,
            None => {
                return;
            },
        };
        let draw: i64 = self.rng.draw();
        let jet: Real = crate::power::chance_of(draw);
        let ghost w0 = World { rng: crate::rng::successor(w.rng), ..w };
        proof {
            assert(self@ =~= w0);
        }
        let stackable: bool = lines.0.modifiers.contains(crate::attack::MODIFIER_STACKABLE);
        let n: usize = self.fighters.len();
        let mut t: usize = 0;
        while t < n
            invariant
                self.wf(),
                self@.extends(w),
                n == w.fighters.len(),
                fid < n,
                e@.caster < n,
                lines.0.wf(),
                lines.1.wf(),
                jet.within(200),
                stackable == crate::attack::holds(
                    lines.0.modifiers@,
                    crate::attack::MODIFIER_STACKABLE,
                ),
                t <= n,
                self@ == w0.spread_to(fid as int, e@, lines, jet, t as nat),
            decreases n - t,
        {
            if self.effect_reaches(fid, t, e.propagate, e.item_id, &lines.0, Ghost(e@)) {
                let b: Blow = Blow {
                    aoe: crate::power::full_power(),
                    critical: e.critical,
                    target: t,
                    caster: e.caster,
                    item_id: e.item_id,
                    attack_type: e.attack_type,
                    jet,
                    stackable,
                    previous: 0,
                    count: 0,
                    propagate: e.propagate,
                };
                let _ = self.create_effect(&lines.1, b);
            }
            t += 1;
        }
    }

    /// Lets the effects on a fighter spread.
    pub(crate) fn propagate_effects(&mut self, fid: usize)
        requires
            old(self).wf(),
            fid < old(self)@.fighters.len(),
        ensures
            final(self).wf(),
            final(self)@.extends(old(self)@),
            final(self)@ == old(self)@.effects_spread(fid as int),
    {
        let ghost w = self@;
        assert(w.fighters[fid as int] == self.fighters@[fid as int]@);
        assert(w.fighters[fid as int].fits(
            fid as int,
            w.teams.len() as int,
            w.board.cells.len() as int,
            w.effects.len() as int,
        ));
        let list: Vec<usize> = crate::lists::copy_list(&self.fighters[fid].effects);
        let mut i: usize = 0;
        while i < list.len()
            invariant
                self.wf(),
                self@.extends(w),
                fid < w.fighters.len(),
                crate::fighter::all_below(list@, w.effects.len() as int),
                i <= list@.len(),
                self@ == w.all_spread(fid as int, list@, i as nat),
            decreases list.len() - i,
        {
            assert(list@[i as int] < w.effects.len());
            self.spread_effect(fid, list[i]);
            i += 1;
        }
    }
}

/// The fighters exist, and the parts of the power are ordinary numbers.
pub open spec fn hits_fit(hit: Seq<(usize, Real)>, fighters: int) -> bool {
    forall|i: int|
        0 <= i < hit.len() ==> (#[trigger] hit[i]).0 < fighters && hit[i].1.within(200)
}

/// Names fighters that are not named yet.
fn name_targets(list: &mut Vec<usize>, targets: &Vec<(usize, Real)>)
    ensures
        final(list)@ == named(old(list)@, targets@),
{
    let ghost before = list@;
    let mut i: usize = 0;
    assert(targets@.take(0) =~= Seq::<(usize, Real)>::empty());
    while i < targets.len()
        invariant
            i <= targets@.len(),
            list@ == named(before, targets@.take(i as int)),
        decreases targets.len() - i,
    {
        assert(targets@.take(i + 1).drop_last() =~= targets@.take(i as int));
        if !crate::map::has_cell(list.as_slice(), targets[i].0) {
            list.push(targets[i].0);
        }
        i += 1;
    }
    assert(targets@.take(i as int) =~= targets@);
}

} // verus!
