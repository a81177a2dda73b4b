//! The order in which fighters play.

use vstd::prelude::*;

verus! {

/// The order of play: the fighters, whose turn it is, and the number of the
/// round.
#[verifier::ext_equal]
pub struct Round {
    pub fids: Seq<usize>,
    pub position: i32,
    pub turn: i32,
}

impl Round {
    /// The position lies in the list, or just before or behind it.
    pub open spec fn wf(self) -> bool {
        &&& self.fids.len() <= i32::MAX
        &&& -1 <= self.position <= self.fids.len()
        &&& self.position < i32::MAX
    }

    /// Nobody plays yet.
    pub open spec fn blank() -> Round {
        Round { fids: Seq::empty(), position: 0, turn: 1 }
    }

    /// Whose turn it is.
    pub open spec fn current(self) -> Option<usize> {
        if 0 <= self.position < self.fids.len() {
            Some(self.fids[self.position as int])
        } else {
            None
        }
    }

    /// With one more fighter at the end.
    pub open spec fn added(self, fid: usize) -> Round {
        Round { fids: self.fids.push(fid), ..self }
    }

    /// With a fighter right behind its owner, where the owner plays.
    pub open spec fn summoned(self, owner: usize, fid: usize) -> Round {
        match crate::lists::place(self.fids, owner) {
            Some(i) => Round { fids: self.fids.insert(i + 1, fid), ..self },
            None => self,
        }
    }

    /// With a fighter put in at `index`; whose turn it is does not change.
    pub open spec fn inserted(self, index: int, fid: usize) -> Round {
        Round {
            fids: self.fids.insert(index, fid),
            position: if index <= self.position {
                (self.position + 1) as i32
            } else {
                self.position
            },
            ..self
        }
    }

    /// Without a fighter. Where it is its turn, the turn goes back to the
    /// fighter before it: at the front, to the last one of the round before.
    pub open spec fn removed(self, fid: usize) -> Round {
        match crate::lists::place(self.fids, fid) {
            None => self,
            Some(i) => {
                let left = self.fids.remove(i);
                let position = if i <= self.position {
                    self.position - 1
                } else {
                    self.position as int
                };
                if position == -1 {
                    Round {
                        fids: left,
                        position: (left.len() - 1) as i32,
                        turn: self.turn.wrapping_sub(1),
                    }
                } else {
                    Round { fids: left, position: position as i32, turn: self.turn }
                }
            },
        }
    }

    /// Whether the next turn begins a new round.
    pub open spec fn wraps(self) -> bool {
        self.position + 1 >= self.fids.len()
    }

    /// The next turn.
    pub open spec fn advanced(self) -> Round {
        if self.wraps() {
            Round {
                position: ((self.position + 1) % (self.fids.len() as int)) as i32,
                turn: self.turn.wrapping_add(1),
                ..self
            }
        } else {
            Round { position: (self.position + 1) as i32, ..self }
        }
    }

    /// The place of a fighter in the order, counted from 1; 0 where it does
    /// not play.
    pub open spec fn rank(self, fid: usize) -> int {
        match crate::lists::place(self.fids, fid) {
            Some(i) => i + 1,
            None => 0,
        }
    }

    /// The order of play keeps its form.
    pub proof fn lemma_wf(self, fid: usize, owner: usize, index: int)
        requires
            self.wf(),
        ensures
            self.fids.len() < i32::MAX ==> self.added(fid).wf() && self.summoned(owner, fid).wf(),
            self.fids.len() < i32::MAX && self.position + 1 < i32::MAX && 0 <= index
                <= self.fids.len() ==> self.inserted(index, fid).wf(),
            self.removed(fid).wf(),
            self.fids.len() > 0 ==> self.advanced().wf(),
    {
        crate::lists::lemma_place(self.fids, fid);
        crate::lists::lemma_place(self.fids, owner);
        if self.wraps() && self.fids.len() > 0 {
            assert(self.position + 1 == self.fids.len() || self.position + 1 == self.fids.len()
                + 1);
            let n = self.fids.len() as int;
            assert(0 <= (n + 1) % n < n && n % n == 0) by (nonlinear_arith)
                requires
                    n > 0,
            ;
        }
    }
}

/// Taking out a fighter whose turn it is not leaves the turn where it is.
pub proof fn lemma_removal_keeps_the_turn(r: Round, fid: usize)
    requires
        r.wf(),
        r.current() is Some,
        r.current() != Some(fid),
    ensures
        r.removed(fid).current() == r.current(),
        r.removed(fid).turn == r.turn,
{
    crate::lists::lemma_place(r.fids, fid);
}

/// Taking out the fighter whose turn it is, and going on, gives the turn to
/// the fighter that came after it, in the round in which it would have had it.
pub proof fn lemma_removal_of_current(r: Round, fid: usize)
    requires
        r.wf(),
        r.fids.no_duplicates(),
        r.fids.len() >= 2,
        r.current() == Some(fid),
        i32::MIN < r.turn < i32::MAX,
    ensures
        r.removed(fid).advanced().current() == r.advanced().current(),
        r.removed(fid).advanced().turn == r.advanced().turn,
{
    crate::lists::lemma_place(r.fids, fid);
    let i = crate::lists::place(r.fids, fid).unwrap();
    assert(i == r.position);
    let n = r.fids.len() as int;
    let left = r.fids.remove(i);
    if i == 0 {
        assert((n - 1) % (n - 1) == 0);
        assert(left[0] == r.fids[1]);
    } else if i == n - 1 {
        assert((n - 1) % (n - 1) == 0);
        assert(n % n == 0);
    } else {
        assert(left[i] == r.fids[i + 1]);
    }
}

/// Putting in a fighter moves those behind it and no others, and leaves the
/// turn where it is: the position moves on where the fighter comes at or
/// before it, and only there.
pub proof fn lemma_insertion_keeps_the_turn(r: Round, index: int, fid: usize)
    requires
        r.wf(),
        0 <= index <= r.fids.len(),
        r.current() is Some,
    ensures
        r.inserted(index, fid).fids == r.fids.take(index) + seq![fid] + r.fids.skip(index),
        r.inserted(index, fid).current() == r.current(),
        r.inserted(index, fid).turn == r.turn,
        r.fids.len() < i32::MAX ==> r.inserted(index, fid).wf(),
        r.inserted(index, fid).position == r.position + if index <= r.position {
            1int
        } else {
            0
        },
{
}

/// The order of play.
#[derive(Debug, Clone)]
pub struct Order {
    fids: Vec<usize>,
    position: i32,
    turn: i32,
}

impl View for Order {
    type V = Round;

    closed spec fn view(&self) -> Round {
        Round { fids: self.fids@, position: self.position, turn: self.turn }
    }
}

impl Order {
    /// Nobody plays yet.
    #[must_use]
    pub fn new() -> (o: Self)
        ensures
            o@ == Round::blank(),
            o@.wf(),
    {
        Order { fids: Vec::new(), position: 0, turn: 1 }
    }

    /// Puts a summoned fighter right behind its owner.
    pub fn add_summon(&mut self, owner: usize, fid: usize)
        requires
            old(self)@.wf(),
            old(self)@.fids.len() < i32::MAX,
        ensures
            final(self)@ == old(self)@.summoned(owner, fid),
            final(self)@.wf(),
    {
        if let Some(i) = crate::lists::find(&self.fids, owner) {
            self.fids.insert(i + 1, fid);
        }
        proof {
            old(self)@.lemma_wf(fid, owner, 0);
            assert(self@ =~= old(self)@.summoned(owner, fid));
        }
    }

    /// Puts a fighter at the end.
    pub fn add_entity(&mut self, fid: usize)
        requires
            old(self)@.wf(),
            old(self)@.fids.len() < i32::MAX,
        ensures
            final(self)@ == old(self)@.added(fid),
            final(self)@.wf(),
    {
        self.fids.push(fid);
        assert(self@ =~= old(self)@.added(fid));
    }

    /// Puts a fighter at `index`. The positions are counted in an `i32`.
    pub fn insert_entity(&mut self, index: usize, fid: usize)
        requires
            old(self)@.wf(),
            old(self)@.fids.len() < i32::MAX,
            old(self)@.position + 1 < i32::MAX,
            index <= old(self)@.fids.len(),
        ensures
            final(self)@ == old(self)@.inserted(index as int, fid),
            final(self)@.wf(),
    {
        self.fids.insert(index, fid);
        if index as i32 <= self.position {
            self.position += 1;
        }
        assert(self@ =~= old(self)@.inserted(index as int, fid));
    }

    /// Takes out a fighter.
    pub fn remove_entity(&mut self, fid: usize)
        requires
            old(self)@.wf(),
        ensures
            final(self)@ == old(self)@.removed(fid),
            final(self)@.wf(),
    {
        proof {
            self@.lemma_wf(fid, 0, 0);
            crate::lists::lemma_place(self.fids@, fid);
        }
        if let Some(index) = crate::lists::find(&self.fids, fid) {
            if index as i32 <= self.position {
                self.position -= 1;
            }
            let _ = self.fids.remove(index);
            if self.position == -1 {
                self.position = self.fids.len() as i32 - 1;
                self.turn = self.turn.wrapping_sub(1);
            }
        }
        assert(self@ =~= old(self)@.removed(fid));
    }

    /// Whose turn it is.
    #[must_use]
    pub fn current(&self) -> (fid: Option<usize>)
        requires
            self@.wf(),
        ensures
            fid == self@.current(),
    {
        if self.position < 0 || self.fids.len() as i32 <= self.position {
            return None;
        }
        Some(self.fids[self.position as usize])
    }

    /// The number of the round.
    #[must_use]
    pub fn turn(&self) -> (t: i32)
        ensures
            t == self@.turn,
    {
        self.turn
    }

    /// The position in the order.
    #[must_use]
    pub fn position(&self) -> (p: i32)
        ensures
            p == self@.position,
    {
        self.position
    }

    /// Goes on to the next turn; tells whether a new round begins.
    pub fn next(&mut self) -> (wrapped: bool)
        requires
            old(self)@.wf(),
            old(self)@.fids.len() > 0,
        ensures
            wrapped == old(self)@.wraps(),
            final(self)@ == old(self)@.advanced(),
            final(self)@.wf(),
    {
        proof {
            self@.lemma_wf(0, 0, 0);
        }
        self.position += 1;
        if self.position >= self.fids.len() as i32 {
            self.turn = self.turn.wrapping_add(1);
            self.position = self.position % (self.fids.len() as i32);
            assert(self@ =~= old(self)@.advanced());
            return true;
        }
        assert(self@ =~= old(self)@.advanced());
        false
    }

    /// The fighters in their order.
    #[must_use]
    pub fn fids(&self) -> (fids: &[usize])
        ensures
            fids@ == self@.fids,
    {
        self.fids.as_slice()
    }

    /// The place of a fighter, counted from 1; 0 where it does not play.
    #[must_use]
    pub fn entity_turn_order(&self, fid: usize) -> (rank: i32)
        requires
            self@.wf(),
        ensures
            rank == self@.rank(fid),
    {
        match crate::lists::find(&self.fids, fid) {
            Some(i) => i as i32 + 1,
            None => 0,
        }
    }
}

impl Default for Order {
    fn default() -> (o: Self)
        ensures
            o@ == Round::blank(),
    {
        Order::new()
    }
}

} // verus!
