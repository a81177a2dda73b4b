//! The turns of a fight on a plain grid, between the runs of programs.

use crate::fight::{Fight, FightView};
use crate::text::decimal_text;
use vstd::prelude::*;
use vstd::relations::*;
use vstd::string::*;

verus! {

/// The program of an entity stopped with an error.
#[derive(Debug)]
pub struct AiError {
    /// The turn in which it did.
    pub turn: u32,
    /// The entity.
    pub entity: i64,
    /// The code of the error, or why the program could not run.
    pub error: String,
}

/// What an error is.
#[verifier::ext_equal]
pub struct AiErrorView {
    pub turn: u32,
    pub entity: i64,
    pub error: Seq<char>,
}

impl View for AiError {
    type V = AiErrorView;

    open spec fn view(&self) -> AiErrorView {
        AiErrorView { turn: self.turn, entity: self.entity, error: self.error@ }
    }
}

impl AiError {
    /// An error.
    #[must_use]
    pub fn new(turn: u32, entity: i64, error: String) -> (e: Self)
        ensures
            e@ == (AiErrorView { turn, entity, error: error@ }),
    {
        AiError { turn, entity, error }
    }

    /// The error in words.
    #[must_use]
    pub fn text(&self) -> (s: String)
        ensures
            s@ == "turn "@ + crate::text::decimal(self.turn as int) + ": entity "@
                + crate::text::decimal(self.entity as int) + ": "@ + self.error@,
    {
        let mut s: String = String::from_str("turn ");
        s.append(decimal_text(self.turn as i64).as_str());
        s.append(": entity ");
        s.append(decimal_text(self.entity).as_str());
        s.append(": ");
        s.append(self.error.as_str());
        s
    }
}

/// What errors are.
pub open spec fn error_views(list: Seq<AiError>) -> Seq<AiErrorView> {
    list.map_values(|e: AiError| e@)
}

/// How a fight ended.
#[derive(Debug)]
pub struct Outcome {
    /// The only team with somebody alive; none where nobody is, or where two
    /// teams are left.
    pub winner_team: Option<i64>,
    /// How many turns were begun.
    pub turns: u32,
    /// The errors of the programs, as they came.
    pub errors: Vec<AiError>,
}

/// What is next in a fight.
#[derive(Debug, Clone, Copy, PartialEq, Eq, Structural)]
pub enum Step {
    /// The program of this entity runs.
    Run(i64),
    /// All turns are over.
    Over,
}

/// How far a fight has come.
#[derive(Debug)]
pub struct Rounds {
    pub max_turns: u32,
    /// The turn; 0 before the first.
    pub turn: u32,
    /// Whose turn it is in this turn, one after the other.
    pub queue: Vec<i64>,
    /// How many of them have had theirs.
    pub next: usize,
    pub errors: Vec<AiError>,
}

/// A fight and how far it has come.
#[verifier::ext_equal]
pub struct Bout {
    pub fight: FightView,
    pub max_turns: u32,
    pub turn: u32,
    pub queue: Seq<i64>,
    pub next: int,
    pub errors: Seq<AiErrorView>,
}

/// The order of numbers.
pub open spec fn rising() -> spec_fn(i64, i64) -> bool {
    |a: i64, b: i64| a <= b
}

/// Whether a team is the only one with somebody alive.
pub open spec fn only_team(fight: FightView, team: i64) -> bool {
    &&& crate::fight::team_lives(fight.entities, team)
    &&& forall|t: i64| #[trigger] crate::fight::team_lives(fight.entities, t) ==> t == team
}

/// Whether nobody is alive.
pub open spec fn nobody_left(fight: FightView) -> bool {
    forall|t: i64| !#[trigger] crate::fight::team_lives(fight.entities, t)
}

/// Whether two teams have somebody alive.
pub open spec fn still_fighting(fight: FightView) -> bool {
    exists|t: i64, u: i64|
        t != u && #[trigger] crate::fight::team_lives(fight.entities, t)
            && #[trigger] crate::fight::team_lives(fight.entities, u)
}

/// A fight goes on, or one team is left, or none, and no two of these.
pub proof fn lemma_one_of_three(fight: FightView)
    ensures
        still_fighting(fight) <==> !nobody_left(fight) && forall|t: i64|
            !#[trigger] only_team(fight, t),
        forall|t: i64, u: i64|
            #[trigger] only_team(fight, t) && #[trigger] only_team(fight, u) ==> t == u,
        forall|t: i64| #[trigger] only_team(fight, t) ==> !nobody_left(fight),
{
    if still_fighting(fight) {
        let (t, u) = choose|t: i64, u: i64|
            t != u && #[trigger] crate::fight::team_lives(fight.entities, t)
                && #[trigger] crate::fight::team_lives(fight.entities, u);
        assert forall|v: i64| !#[trigger] only_team(fight, v) by {
            if only_team(fight, v) {
                assert(t == v && u == v);
            }
        }
    } else if !nobody_left(fight) {
        let t = choose|t: i64| #[trigger] crate::fight::team_lives(fight.entities, t);
        assert(only_team(fight, t));
    }
}

impl FightView {
    pub open spec fn lives(self, id: i64) -> bool {
        self.entity(id) matches Some(e) && e.life > 0
    }

    /// The fight with an entity about to act: its points are back, and its
    /// effects have acted on it.
    pub open spec fn readied(self, id: i64) -> FightView {
        let f = FightView { current: id, ..self };
        let g = match f.entity(id) {
            Some(e) => f.changed(id, e.regenerated()),
            None => f,
        };
        match g.entity(id) {
            Some(e) => g.changed(id, e.effects_ticked()),
            None => g,
        }
    }
}

impl Bout {
    /// At the begin of the next turn: those alive have theirs, by number.
    pub open spec fn turn_opened(self) -> Bout {
        let turn = (self.turn + 1) as u32;
        Bout {
            fight: FightView { turn: turn as i64, ..self.fight },
            turn,
            queue: crate::fight::numbers_of(self.fight.entities, true).sort_by(rising()),
            next: 0,
            ..self
        }
    }

    /// After the next in the queue was called.
    pub open spec fn called(self) -> Bout {
        let id = self.queue[self.next];
        let passed = Bout { next: self.next + 1, ..self };
        if self.fight.lives(id) {
            Bout { fight: self.fight.readied(id), ..passed }
        } else {
            passed
        }
    }

    /// The next program that runs, and the fight before it: the dead are
    /// passed over, and so are those whom their effects kill.
    pub open spec fn advanced(self) -> (Bout, Step)
        decreases self.max_turns - self.turn, self.queue.len() - self.next,
    {
        if self.next < self.queue.len() {
            let id = self.queue[self.next];
            let after = self.called();
            if self.fight.lives(id) && after.fight.lives(id) {
                (after, Step::Run(id))
            } else {
                after.advanced()
            }
        } else if self.turn < self.max_turns {
            self.turn_opened().advanced()
        } else {
            (self, Step::Over)
        }
    }
}

/// Nobody but a living entity acts, and no turn is begun beyond the last.
pub proof fn lemma_the_living_act(bout: Bout)
    requires
        bout.turn <= bout.max_turns,
    ensures
        bout.turn <= bout.advanced().0.turn <= bout.max_turns,
        bout.advanced().1 matches Step::Run(id) ==> bout.advanced().0.fight.lives(id)
            && bout.advanced().0.fight.current == id,
        bout.advanced().1 is Over ==> bout.advanced().0.turn == bout.max_turns,
        bout.advanced().0.errors == bout.errors,
    decreases bout.max_turns - bout.turn, bout.queue.len() - bout.next,
{
    if bout.next < bout.queue.len() {
        let id = bout.queue[bout.next];
        if !(bout.fight.lives(id) && bout.called().fight.lives(id)) {
            lemma_the_living_act(bout.called());
        }
    } else if bout.turn < bout.max_turns {
        lemma_the_living_act(bout.turn_opened());
    }
}

/// Puts a number into a rising list.
fn put(list: &mut Vec<i64>, n: i64)
    requires
        sorted_by(old(list)@, rising()),
    ensures
        sorted_by(final(list)@, rising()),
        final(list)@.to_multiset() == old(list)@.to_multiset().insert(n),
{
    broadcast use vstd::seq_lib::group_to_multiset_ensures;

    let ghost before = list@;
    let mut i: usize = 0;
    while i < list.len() && list[i] <= n
        invariant
            list@ == before,
            i <= before.len(),
            forall|k: int| 0 <= k < i ==> #[trigger] before[k] <= n,
        decreases list.len() - i,
    {
        i += 1;
    }
    list.insert(i, n);
    let ghost after = list@;
    proof {
        let leq = rising();
        assert forall|a: int, b: int| 0 <= a < b < after.len() implies #[trigger] leq(
            after[a],
            after[b],
        ) by {
            let p = if a < i {
                a
            } else {
                a - 1
            };
            let q = if b < i {
                b
            } else {
                b - 1
            };
            if a != i && b != i {
                assert(leq(before[p], before[q]));
            } else if a == i {
                if i < before.len() && i < q {
                    assert(leq(before[i as int], before[q]));
                }
            }
        }
        assert(after.remove(i as int) =~= before);
        assert(after[i as int] == n);
        assert(after.contains(n));
        assert(after.remove(i as int).to_multiset() =~= after.to_multiset().remove(n));
        assert(after.to_multiset().count(n) > 0);
        assert(after.to_multiset() =~= before.to_multiset().insert(n));
    }
}

/// A list in rising order.
fn sorted_ids(list: Vec<i64>) -> (sorted: Vec<i64>)
    ensures
        sorted@ == list@.sort_by(rising()),
{
    broadcast use vstd::seq_lib::group_to_multiset_ensures;

    let mut sorted: Vec<i64> = Vec::new();
    let mut i: usize = 0;
    assert(list@.take(0) =~= Seq::<i64>::empty());
    while i < list.len()
        invariant
            i <= list@.len(),
            sorted_by(sorted@, rising()),
            sorted@.to_multiset() == list@.take(i as int).to_multiset(),
        decreases list.len() - i,
    {
        proof {
            let past = list@.take(i as int);
            assert(list@.take(i + 1) =~= past.push(list@[i as int]));
            vstd::seq_lib::to_multiset_build(past, list@[i as int]);
        }
        put(&mut sorted, list[i]);
        i += 1;
    }
    proof {
        assert(list@.take(i as int) =~= list@);
        assert(total_ordering(rising()));
        list@.lemma_sort_by_ensures(rising());
        vstd::seq_lib::lemma_sorted_unique(sorted@, list@.sort_by(rising()), rising());
    }
    sorted
}

impl Rounds {
    /// With the fight.
    pub open spec fn of(self, fight: FightView) -> Bout {
        Bout {
            fight,
            max_turns: self.max_turns,
            turn: self.turn,
            queue: self.queue@,
            next: self.next as int,
            errors: error_views(self.errors@),
        }
    }

    /// Before the first turn of a fight of at most so many.
    #[must_use]
    pub fn new(max_turns: u32) -> (r: Self)
        ensures
            r.wf(),
            forall|f: FightView|
                #[trigger] r.of(f) == (Bout {
                    fight: f,
                    max_turns,
                    turn: 0,
                    queue: Seq::empty(),
                    next: 0,
                    errors: Seq::empty(),
                }),
    {
        let r = Rounds {
            max_turns,
            turn: 0,
            queue: Vec::new(),
            next: 0,
            errors: Vec::new(),
        };
        assert(error_views(r.errors@) =~= Seq::empty());
        r
    }

    /// The turn is none beyond the last.
    pub open spec fn wf(self) -> bool {
        &&& self.turn <= self.max_turns
        &&& self.next <= self.queue@.len()
    }

    /// Goes on to the next program that runs.
    pub fn advance(&mut self, fight: &mut Fight) -> (step: Step)
        requires
            old(self).wf(),
            old(fight).wf(),
        ensures
            final(self).wf(),
            final(fight).wf(),
            (final(self).of(final(fight)@), step) == old(self).of(old(fight)@).advanced(),
    {
        let ghost start = self.of(fight@);
        loop
            invariant
                self.wf(),
                fight.wf(),
                start == old(self).of(old(fight)@),
                self.of(fight@).advanced() == start.advanced(),
            decreases self.max_turns - self.turn, self.queue@.len() - self.next,
        {
            let ghost bout = self.of(fight@);
            if self.next < self.queue.len() {
                let id: i64 = self.queue[self.next];
                self.next += 1;
                if alive(fight, id) {
                    fight.set_current(id);
                    fight.regen(id);
                    fight.tick_effects(id);
                    assert(self.of(fight@) =~= bout.called());
                    if alive(fight, id) {
                        return Step::Run(id);
                    }
                }
                assert(self.of(fight@) =~= bout.called());
            } else if self.turn < self.max_turns {
                self.turn += 1;
                let ids: Vec<i64> = fight.entities(true);
                self.queue = sorted_ids(ids);
                self.next = 0;
                fight.set_turn(self.turn as i64);
                assert(self.of(fight@) =~= bout.turn_opened());
            } else {
                return Step::Over;
            }
        }
    }

    /// Settles the run of a program, with its error where it stopped with
    /// one, and answers whether the fight is decided. An error ends only the
    /// turn of the entity.
    pub fn settle(&mut self, fight: &Fight, entity: i64, error: Option<String>) -> (over: bool)
        requires
            old(self).wf(),
        ensures
            final(self).wf(),
            over == !still_fighting(fight@),
            ({
                let before = old(self).of(fight@);
                final(self).of(fight@) == Bout {
                    errors: match error {
                        Some(e) => before.errors.push(
                            (AiErrorView { turn: before.turn, entity, error: e@ }),
                        ),
                        None => before.errors,
                    },
                    ..before
                }
            }),
    {
        let ghost before = self.of(fight@);
        if let Some(e) = error {
            self.errors.push(AiError::new(self.turn, entity, e));
            assert(error_views(self.errors@) =~= before.errors.push(
                AiErrorView { turn: before.turn, entity, error: e@ },
            ));
        }
        let teams: Vec<i64> = fight.living_teams();
        proof {
            if teams@.len() > 1 {
                assert(teams@.contains(teams@[0]) && teams@.contains(teams@[1]));
                assert(still_fighting(fight@));
            } else if still_fighting(fight@) {
                let (t, u) = choose|t: i64, u: i64|
                    t != u && #[trigger] crate::fight::team_lives(fight@.entities, t)
                        && #[trigger] crate::fight::team_lives(fight@.entities, u);
                assert(teams@.contains(t) && teams@.contains(u));
            }
        }
        teams.len() <= 1
    }

    /// How the fight ended.
    #[must_use]
    pub fn outcome(self, fight: &Fight) -> (o: Outcome)
        ensures
            match o.winner_team {
                Some(t) => only_team(fight@, t),
                None => nobody_left(fight@) || still_fighting(fight@),
            },
            o.turns == self.turn,
            error_views(o.errors@) == error_views(self.errors@),
    {
        let teams: Vec<i64> = fight.living_teams();
        let winner_team: Option<i64> = if teams.len() == 1 {
            Some(teams[0])
        } else {
            None
        };
        proof {
            if teams@.len() == 1 {
                assert(teams@.contains(teams@[0]));
                assert forall|t: i64| #[trigger]
                    crate::fight::team_lives(fight@.entities, t) implies t == teams@[0] by {
                    assert(teams@.contains(t));
                }
            } else if teams@.len() == 0 {
                assert forall|t: i64| !#[trigger] crate::fight::team_lives(fight@.entities, t) by {
                    assert(!teams@.contains(t));
                }
            } else {
                assert(teams@.contains(teams@[0]) && teams@.contains(teams@[1]));
            }
        }
        Outcome { winner_team, turns: self.turn, errors: self.errors }
    }
}

/// Whether an entity is there and alive.
fn alive(fight: &Fight, id: i64) -> (b: bool)
    ensures
        b == fight@.lives(id),
{
    match fight.life(id) {
        Some(l) => l > 0,
        None => false,
    }
}

/// The error of a program changes neither the fight nor when it ends: with it
/// or without, the same program runs next.
pub proof fn lemma_errors_stop_nothing(bout: Bout, errors: Seq<AiErrorView>)
    ensures
        ({
            let other = Bout { errors, ..bout };
            &&& other.advanced().1 == bout.advanced().1
            &&& other.advanced().0 == (Bout { errors, ..bout.advanced().0 })
        }),
    decreases bout.max_turns - bout.turn, bout.queue.len() - bout.next,
{
    let other = Bout { errors, ..bout };
    if bout.next < bout.queue.len() {
        let id = bout.queue[bout.next];
        assert(other.called() == (Bout { errors, ..bout.called() }));
        if !(bout.fight.lives(id) && bout.called().fight.lives(id)) {
            lemma_errors_stop_nothing(bout.called(), errors);
        }
    } else if bout.turn < bout.max_turns {
        assert(other.turn_opened() == (Bout { errors, ..bout.turn_opened() }));
        lemma_errors_stop_nothing(bout.turn_opened(), errors);
    }
}

} // verus!
