//! Moves of fighters over the board.

use crate::actions::Action;
use crate::attack::EntityState;
use crate::fighter::FighterView;
use crate::json::Tree;
use crate::world::{State, World};
use vstd::prelude::*;

verus! {

broadcast use {
    vstd::std_specs::hash::group_hash_axioms,
    vstd::std_specs::btree::group_btree_axioms,
    crate::fighter::lemma_stats_len,
};

/// The first `n` cells of a path, or all of them.
pub open spec fn cut(path: Seq<usize>, n: int) -> Seq<usize> {
    if path.len() <= n {
        path
    } else {
        path.take(n)
    }
}

/// What the journal says of a move.
pub open spec fn move_tree(fid: int, path: Seq<usize>) -> Tree {
    Tree::Array(
        seq![
            Tree::Int(crate::actions::MOVE_TO as int),
            Tree::Int(fid),
            Tree::Int(path.last() as int),
            crate::json::row(path.map_values(|c: usize| c as int)),
        ],
    )
}

impl World {
    /// Whether a fighter can go `size` cells: it is not static, and it has
    /// the movement points.
    pub open spec fn can_walk(self, fid: int, size: int) -> bool {
        &&& !self.fighters[fid].has_state(EntityState::Static)
        &&& 0 < size <= self.fighters[fid].mp()
    }

    /// A fighter goes along a path, if it can.
    pub open spec fn walked(self, fid: int, path: Seq<usize>) -> World {
        if self.can_walk(fid, path.len() as int) {
            let w = self.logged(move_tree(fid, path));
            w.with_fighter(fid, w.fighters[fid].mp_used(path.len() as i32)).placed(
                fid,
                path.last(),
            )
        } else {
            self
        }
    }

    /// How many cells a fighter goes along a path.
    pub open spec fn walk_length(self, fid: int, path: Seq<usize>) -> int {
        if self.can_walk(fid, path.len() as int) {
            path.len() as int
        } else {
            0
        }
    }

    /// The movement points that a fighter may spend: as many as it wants, all
    /// for -1, and no more than it has.
    pub open spec fn budget(self, fid: int, wanted: i64) -> int {
        let mp = self.fighters[fid].mp();
        let points = if wanted == -1 {
            mp
        } else {
            wanted as i32
        };
        if points > mp {
            mp as int
        } else {
            points as int
        }
    }

    /// A fighter goes along a path as far as its points reach, or stays where
    /// there is none.
    pub open spec fn follows(
        self,
        fid: int,
        path: Option<Vec<usize>>,
        points: int,
        after: World,
        moved: int,
    ) -> bool {
        match path {
            Some(p) => {
                &&& after == self.walked(fid, cut(p@, points))
                &&& moved == self.walk_length(fid, cut(p@, points))
            },
            None => after == self && moved == 0,
        }
    }

    /// A fighter heads for one of several cells, along a shortest path.
    pub open spec fn heads(
        self,
        fid: int,
        ends: Seq<usize>,
        points: int,
        after: World,
        moved: int,
    ) -> bool {
        exists|path: Option<Vec<usize>>|
            {
                &&& #[trigger] self.board.path_answer(
                    self.fighters[fid].cell.unwrap() as int,
                    ends,
                    Seq::empty(),
                    path,
                )
                &&& self.follows(fid, path, points, after, moved)
            }
    }

    /// A fighter flees from a cell.
    pub open spec fn flees(self, fid: int, bad: usize, points: int, after: World, moved: int) -> bool {
        let offsets = self.board.flight_offsets(points);
        exists|path: Option<Vec<usize>>|
            {
                &&& #[trigger] self.board.flight_answer(
                    self.fighters[fid].cell.unwrap() as int,
                    seq![bad],
                    points,
                    offsets,
                    offsets.len() as int,
                    path,
                )
                &&& self.follows(fid, path, points, after, moved)
            }
    }

    /// The cell of a fighter that is alive, by the number of the fighter.
    pub open spec fn goal_cell(self, leek_id: int) -> Option<usize> {
        if 0 <= leek_id < self.fighters.len() && !self.fighters[leek_id].is_dead() {
            self.fighters[leek_id].cell
        } else {
            None
        }
    }

    /// What a move towards a fighter does.
    pub open spec fn moved_toward(
        self,
        fid: int,
        leek_id: int,
        wanted: i64,
        after: World,
        moved: int,
    ) -> bool {
        let points = self.budget(fid, wanted);
        if points <= 0 || self.fighters[fid].cell is None || self.goal_cell(leek_id) is None {
            after == self && moved == 0
        } else {
            self.heads(fid, seq![self.goal_cell(leek_id).unwrap()], points, after, moved)
        }
    }

    /// What a move towards a cell does: where an obstacle is, towards the
    /// cells around it.
    pub open spec fn moved_toward_cell(
        self,
        fid: int,
        cell: int,
        wanted: i64,
        after: World,
        moved: int,
    ) -> bool {
        let points = self.budget(fid, wanted);
        if points <= 0 || self.fighters[fid].cell is None || !self.board.has(cell)
            || self.fighters[fid].cell == Some(cell as usize) {
            after == self && moved == 0
        } else {
            self.heads(
                fid,
                if self.board.walkable(cell) {
                    seq![cell as usize]
                } else {
                    self.board.around_obstacle(cell)
                },
                points,
                after,
                moved,
            )
        }
    }

    /// What a move away from a fighter does.
    pub open spec fn moved_away_from(
        self,
        fid: int,
        leek_id: int,
        wanted: i64,
        after: World,
        moved: int,
    ) -> bool {
        let points = self.budget(fid, wanted);
        if points <= 0 || self.fighters[fid].cell is None || self.goal_cell(leek_id) is None {
            after == self && moved == 0
        } else {
            self.flees(fid, self.goal_cell(leek_id).unwrap(), points, after, moved)
        }
    }

    /// What a move away from a cell does.
    pub open spec fn moved_away_from_cell(
        self,
        fid: int,
        cell: int,
        wanted: i64,
        after: World,
        moved: int,
    ) -> bool {
        let points = self.budget(fid, wanted);
        if points <= 0 || self.fighters[fid].cell is None || !self.board.has(cell) {
            after == self && moved == 0
        } else {
            self.flees(fid, cell as usize, points, after, moved)
        }
    }
}

/// A walk spends as many movement points as it has cells, and ends on the
/// last of them; nobody else moves.
pub proof fn lemma_walk_spends(w: World, fid: int, path: Seq<usize>)
    requires
        0 <= fid < w.fighters.len(),
        w.can_walk(fid, path.len() as int),
    ensures
        w.walked(fid, path).fighters[fid].mp() == w.fighters[fid].mp() - path.len(),
        w.walked(fid, path).fighters[fid].cell == Some(path.last()),
        w.walked(fid, path).entity_on(path.last()) == Some(fid as usize),
        forall|i: int|
            0 <= i < w.fighters.len() && i != fid ==> #[trigger] w.walked(fid, path).fighters[i]
                == w.fighters[i],
{
}

/// A fighter never goes further than its movement points.
pub proof fn lemma_walk_within_budget(w: World, fid: int, path: Seq<usize>)
    requires
        0 <= fid < w.fighters.len(),
    ensures
        w.walk_length(fid, path) == 0 || w.walk_length(fid, path) <= w.fighters[fid].mp(),
        w.walk_length(fid, path) == 0 ==> w.walked(fid, path) == w,
{
}

impl State {
    /// A shortest path between two cells, around everyone.
    #[must_use]
    pub fn path_between(&self, start: usize, end: usize) -> (path: Option<Vec<usize>>)
        requires
            self.wf(),
            self@.board.has(start as int),
            self@.board.has(end as int),
        ensures
            self@.board.path_answer(start as int, seq![end], Seq::empty(), path),
    {
        let none: Vec<usize> = Vec::new();
        assert(none@ =~= Seq::<usize>::empty());
        self.map.get_path_between(start, end, &none)
    }

    /// Lets a fighter go along a path, and answers how many cells it went.
    pub fn move_entity(&mut self, fid: usize, path: &[usize]) -> (moved: i64)
        requires
            old(self).wf(),
            fid < old(self)@.fighters.len(),
            path@.len() <= i32::MAX,
            forall|i: int| 0 <= i < path@.len() ==> old(self)@.board.has(#[trigger] path@[i] as int),
        ensures
            final(self).wf(),
            final(self)@.extends(old(self)@),
            final(self)@ == old(self)@.walked(fid as int, path@),
            moved == old(self)@.walk_length(fid as int, path@),
    {
        let ghost w = self@;
        assert(w.fighters[fid as int] == self.fighters@[fid as int]@);
        if self.fighters[fid].has_state(EntityState::Static) {
            return 0;
        }
        let size: i32 = path.len() as i32;
        if size == 0 || size > self.fighters[fid].mp() {
            return 0;
        }
        proof {
            crate::map::lemma_cell_count_limit(w.board);
        }
        let end: usize = path[path.len() - 1];
        let mut cells: Vec<i32> = Vec::new();
        let mut i: usize = 0;
        while i < path.len()
            invariant
                i <= path@.len(),
                w.board.cells.len() <= 0x4001_0000,
                forall|j: int| 0 <= j < path@.len() ==> w.board.has(#[trigger] path@[j] as int),
                cells@.len() == i,
                forall|j: int| 0 <= j < i ==> #[trigger] cells@[j] == path@[j],
            decreases path.len() - i,
        {
            assert(w.board.has(path@[i as int] as int));
            cells.push(path[i] as i32);
            i += 1;
        }
        assert(w.board.has(path@.last() as int));
        let action = Action::Move { entity_id: fid as i64, end_cell: end as i32, path: cells };
        proof {
            assert(cells@.map_values(|c: i32| c as int) =~= path@.map_values(
                |c: usize| c as int,
            ));
            assert(action.json() == move_tree(fid as int, path@));
        }
        self.log(action);
        let ghost w1 = self@;
        assert(w1.fighters[fid as int] == self.fighters@[fid as int]@);
        self.fighters[fid].use_mp(size);
        proof {
            let w2 = w1.with_fighter(fid as int, w1.fighters[fid as int].mp_used(size));
            assert(self@.fighters =~= w2.fighters);
            assert(self@ =~= w2);
        }
        self.place_entity(fid, end);
        size as i64
    }

    /// The movement points that a fighter may spend.
    fn budget_of(&self, fid: usize, wanted: i64) -> (points: i32)
        requires
            self.wf(),
            fid < self@.fighters.len(),
        ensures
            points == self@.budget(fid as int, wanted),
    {
        assert(self@.fighters[fid as int] == self.fighters@[fid as int]@);
        let mp: i32 = self.fighters[fid].mp();
        let points: i32 = if wanted == -1 {
            mp
        } else {
            #[verifier::truncate]
            (wanted as i32)
        };
        if points > mp {
            mp
        } else {
            points
        }
    }

    /// The cell of a fighter that is alive.
    pub(crate) fn goal_cell(&self, leek_id: i64) -> (cell: Option<usize>)
        requires
            self.wf(),
        ensures
            cell == self@.goal_cell(leek_id as int),
            cell matches Some(c) ==> self@.board.has(c as int),
    {
        if leek_id < 0 || leek_id as u64 >= self.fighters.len() as u64 {
            return None;
        }
        let target: usize = leek_id as usize;
        proof {
            let w = self@;
            assert(w.fighters[target as int] == self.fighters@[target as int]@);
            assert(w.fighters[target as int].fits(
                target as int,
                w.teams.len() as int,
                w.board.cells.len() as int,
                w.effects.len() as int,
            ));
        }
        if self.fighters[target].is_dead() {
            None
        } else {
            self.fighters[target].cell
        }
    }

    /// Lets a fighter follow a path as far as its points reach.
    fn follow(&mut self, fid: usize, path: Option<Vec<usize>>, points: i32) -> (moved: i64)
        requires
            old(self).wf(),
            fid < old(self)@.fighters.len(),
            0 < points,
            path matches Some(p) ==> forall|i: int|
                0 <= i < p@.len() ==> old(self)@.board.has(#[trigger] p@[i] as int),
        ensures
            final(self).wf(),
            final(self)@.extends(old(self)@),
            old(self)@.follows(fid as int, path, points as int, final(self)@, moved as int),
    {
        match path {
            Some(p) => {
                let ghost all = p@;
                let mut steps = p;
                if steps.len() > points as usize {
                    steps.truncate(points as usize);
                    assert(steps@ =~= all.take(points as int));
                }
                assert(steps@ == cut(all, points as int));
                self.move_entity(fid, steps.as_slice())
            },
            None => 0,
        }
    }

    /// Lets a fighter go towards another that is alive, spending at most so
    /// many movement points; all for -1.
    pub fn move_toward(&mut self, fid: usize, leek_id: i64, pm_to_use: i64) -> (moved: i64)
        requires
            old(self).wf(),
            fid < old(self)@.fighters.len(),
        ensures
            final(self).wf(),
            final(self)@.extends(old(self)@),
            old(self)@.moved_toward(
                fid as int,
                leek_id as int,
                pm_to_use,
                final(self)@,
                moved as int,
            ),
    {
        let ghost w = self@;
        let points: i32 = self.budget_of(fid, pm_to_use);
        if points <= 0 {
            return 0;
        }
        proof {
            assert(w.fighters[fid as int] == self.fighters@[fid as int]@);
            assert(w.fighters[fid as int].fits(
                fid as int,
                w.teams.len() as int,
                w.board.cells.len() as int,
                w.effects.len() as int,
            ));
        }
        match (self.fighters[fid].cell, self.goal_cell(leek_id)) {
            (Some(start), Some(end)) => {
                let path = self.path_between(start, end);
                proof {
                    w.board.lemma_path_on_board(start as int, seq![end], Seq::empty(), path);
                }
                let moved: i64 = self.follow(fid, path, points);
                assert(w.board.path_answer(
                    w.fighters[fid as int].cell.unwrap() as int,
                    seq![end],
                    Seq::empty(),
                    path,
                ));
                moved
            },
            _ => 0,
        }
    }

    /// Lets a fighter go towards a cell, or towards the cells around the
    /// obstacle on it.
    pub fn move_toward_cell(&mut self, fid: usize, cell_id: i64, pm_to_use: i64) -> (moved: i64)
        requires
            old(self).wf(),
            fid < old(self)@.fighters.len(),
        ensures
            final(self).wf(),
            final(self)@.extends(old(self)@),
            old(self)@.moved_toward_cell(
                fid as int,
                cell_id as int,
                pm_to_use,
                final(self)@,
                moved as int,
            ),
    {
        let ghost w = self@;
        let points: i32 = self.budget_of(fid, pm_to_use);
        if points <= 0 {
            return 0;
        }
        proof {
            assert(w.fighters[fid as int] == self.fighters@[fid as int]@);
            assert(w.fighters[fid as int].fits(
                fid as int,
                w.teams.len() as int,
                w.board.cells.len() as int,
                w.effects.len() as int,
            ));
            crate::map::lemma_cell_count_limit(w.board);
        }
        let start: usize = match self.fighters[fid].cell {
            Some(c) => c,
            None => {
                return 0;
            },
        };
        if cell_id < 0 || cell_id as u64 >= self.map.nb_cells as u64 {
            return 0;
        }
        let target: usize = cell_id as usize;
        if target == start {
            return 0;
        }
        if self.map.cells[target].walkable {
            let path = self.path_between(start, target);
            proof {
                w.board.lemma_path_on_board(start as int, seq![target], Seq::empty(), path);
            }
            let moved: i64 = self.follow(fid, path, points);
            assert(w.board.path_answer(
                w.fighters[fid as int].cell.unwrap() as int,
                seq![target],
                Seq::empty(),
                path,
            ));
            moved
        } else {
            let around = self.map.get_valid_cells_around_obstacle(target);
            let path = self.map.get_astar_path_multi(start, around.as_slice());
            proof {
                w.board.lemma_path_on_board(start as int, around@, Seq::empty(), path);
            }
            let moved: i64 = self.follow(fid, path, points);
            assert(w.board.path_answer(
                w.fighters[fid as int].cell.unwrap() as int,
                w.board.around_obstacle(target as int),
                Seq::empty(),
                path,
            ));
            moved
        }
    }

    /// Lets a fighter flee from a cell.
    fn flee(&mut self, fid: usize, start: usize, bad: usize, points: i32) -> (moved: i64)
        requires
            old(self).wf(),
            fid < old(self)@.fighters.len(),
            old(self)@.fighters[fid as int].cell == Some(start),
            old(self)@.board.has(bad as int),
            0 < points,
        ensures
            final(self).wf(),
            final(self)@.extends(old(self)@),
            old(self)@.flees(fid as int, bad, points as int, final(self)@, moved as int),
    {
        let ghost w = self@;
        proof {
            assert(w.fighters[fid as int].fits(
                fid as int,
                w.teams.len() as int,
                w.board.cells.len() as int,
                w.effects.len() as int,
            ));
        }
        let mut cells: Vec<usize> = Vec::new();
        cells.push(bad);
        assert(cells@ =~= seq![bad]);
        let path = self.map.get_path_away(start, cells.as_slice(), points);
        proof {
            let offsets = w.board.flight_offsets(points as int);
            if path is Some {
                let i = choose|i: int|
                    0 <= i < offsets.len() && #[trigger] w.board.refuge(
                        start as int,
                        seq![bad],
                        points as int,
                        offsets,
                        i,
                    ) && w.board.path_answer(
                        start as int,
                        seq![w.board.step(start as int, offsets[i].0, offsets[i].1).unwrap()],
                        Seq::empty(),
                        path,
                    );
                w.board.lemma_path_on_board(
                    start as int,
                    seq![w.board.step(start as int, offsets[i].0, offsets[i].1).unwrap()],
                    Seq::empty(),
                    path,
                );
            }
        }
        let moved: i64 = self.follow(fid, path, points);
        assert(w.board.flight_answer(
            w.fighters[fid as int].cell.unwrap() as int,
            seq![bad],
            points as int,
            w.board.flight_offsets(points as int),
            w.board.flight_offsets(points as int).len() as int,
            path,
        ));
        moved
    }

    /// Lets a fighter flee from another that is alive.
    pub fn move_away_from(&mut self, fid: usize, leek_id: i64, pm_to_use: i64) -> (moved: i64)
        requires
            old(self).wf(),
            fid < old(self)@.fighters.len(),
        ensures
            final(self).wf(),
            final(self)@.extends(old(self)@),
            old(self)@.moved_away_from(
                fid as int,
                leek_id as int,
                pm_to_use,
                final(self)@,
                moved as int,
            ),
    {
        let ghost w = self@;
        let points: i32 = self.budget_of(fid, pm_to_use);
        if points <= 0 {
            return 0;
        }
        assert(w.fighters[fid as int] == self.fighters@[fid as int]@);
        match (self.fighters[fid].cell, self.goal_cell(leek_id)) {
            (Some(start), Some(bad)) => self.flee(fid, start, bad, points),
            _ => 0,
        }
    }

    /// Lets a fighter flee from a cell, which may be its own.
    pub fn move_away_from_cell(&mut self, fid: usize, cell_id: i64, pm_to_use: i64) -> (moved: i64)
        requires
            old(self).wf(),
            fid < old(self)@.fighters.len(),
        ensures
            final(self).wf(),
            final(self)@.extends(old(self)@),
            old(self)@.moved_away_from_cell(
                fid as int,
                cell_id as int,
                pm_to_use,
                final(self)@,
                moved as int,
            ),
    {
        let ghost w = self@;
        let points: i32 = self.budget_of(fid, pm_to_use);
        if points <= 0 {
            return 0;
        }
        assert(w.fighters[fid as int] == self.fighters@[fid as int]@);
        match self.fighters[fid].cell {
            Some(start) => {
                if cell_id < 0 || cell_id as u64 >= self.map.nb_cells as u64 {
                    0
                } else {
                    self.flee(fid, start, cell_id as usize, points)
                }
            },
            None => 0,
        }
    }
}

} // verus!
