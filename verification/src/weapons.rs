//! The weapons of a fight on a plain grid.

use crate::effects::{unsupported_ids, Effect};
use vstd::prelude::*;

verus! {

/// A weapon.
#[derive(Debug)]
pub struct Weapon {
    /// Its number.
    pub item: i64,
    pub name: String,
    /// The turn points of a use.
    pub cost: i64,
    pub min_range: i64,
    pub max_range: i64,
    /// The directions in which it is meant to be used; all are allowed.
    pub launch_type: i64,
    /// How far it reaches around its target, with the target: 1 is the target
    /// alone.
    pub area: i64,
    /// Whether the target has to be seen.
    pub los: bool,
    /// The turns until the next use; below 0 for the rest of the fight.
    pub cooldown: i64,
    /// The most uses in a turn; 0 for any number.
    pub max_uses: i64,
    pub effects: Vec<Effect>,
}

impl Weapon {
    /// The values of the effects are those of doubles.
    pub open spec fn wf(self) -> bool {
        forall|i: int| 0 <= i < self.effects@.len() ==> (#[trigger] self.effects@[i]).wf()
    }
}

/// Where the weapon with a number stands first.
pub open spec fn row_of(rows: Seq<Weapon>, item: i64) -> Option<int>
    decreases rows.len(),
{
    if rows.len() == 0 {
        None
    } else {
        match row_of(rows.drop_last(), item) {
            Some(i) => Some(i),
            None => if rows.last().item == item {
                Some(rows.len() - 1)
            } else {
                None
            },
        }
    }
}

/// What stands first in the beginning of a list stands first in the list.
proof fn lemma_row_stays(rows: Seq<Weapon>, n: int, item: i64)
    requires
        0 <= n <= rows.len(),
        row_of(rows.take(n), item) is Some,
    ensures
        row_of(rows, item) == row_of(rows.take(n), item),
    decreases rows.len() - n,
{
    if n == rows.len() {
        assert(rows.take(n) =~= rows);
    } else {
        assert(rows.take(n + 1).drop_last() =~= rows.take(n));
        lemma_row_stays(rows, n + 1, item);
    }
}

/// The weapon with a number.
#[must_use]
pub fn lookup(rows: &[Weapon], item: i64) -> (found: Option<&Weapon>)
    ensures
        match row_of(rows@, item) {
            Some(i) => found == Some(&rows@[i]) && 0 <= i < rows@.len() && rows@[i].item == item,
            None => found is None,
        },
{
    let mut i: usize = 0;
    assert(rows@.take(0) =~= Seq::<Weapon>::empty());
    while i < rows.len()
        invariant
            i <= rows@.len(),
            row_of(rows@.take(i as int), item) is None,
        decreases rows.len() - i,
    {
        assert(rows@.take(i + 1).drop_last() =~= rows@.take(i as int));
        if rows[i].item == item {
            proof {
                lemma_row_stays(rows@, i + 1, item);
            }
            return Some(&rows[i]);
        }
        i += 1;
    }
    assert(rows@.take(i as int) =~= rows@);
    None
}

/// The numbers of the effects of a weapon that do nothing here; none where there
/// is no such weapon.
#[must_use]
pub fn unsupported_effects(rows: &[Weapon], item: i64) -> (ids: Option<Vec<u8>>)
    ensures
        match row_of(rows@, item) {
            Some(i) => ids matches Some(list) && list@ == crate::effects::unsupported_in(
                rows@[i].effects@,
            ),
            None => ids is None,
        },
{
    match lookup(rows, item) {
        Some(row) => Some(unsupported_ids(row.effects.as_slice())),
        None => None,
    }
}

} // verus!
