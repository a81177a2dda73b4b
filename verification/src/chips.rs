//! The chips of a fight on a plain grid.

use crate::catalog::{entries, flag, int_field, num, rows, text};
use crate::effects::{unsupported_ids, Effect};
use crate::json::Tree;
use serde_json::Value;
use vstd::prelude::*;

verus! {

/// A chip.
#[derive(Debug)]
pub struct Chip {
    /// Its number.
    pub item: i64,
    pub name: String,
    /// The turn points of a use.
    pub cost: i64,
    pub min_range: i64,
    pub max_range: i64,
    /// The directions in which it is meant to be used; all are allowed.
    pub launch_type: i64,
    /// How far it reaches around its target, with the target: 1 is the target
    /// alone.
    pub area: i64,
    /// Whether the target has to be seen.
    pub los: bool,
    /// The turns until the next use; below 0 for the rest of the fight.
    pub cooldown: i64,
    /// The turns until the first use; they are not counted here.
    pub initial_cooldown: i64,
    /// Whether the whole team waits; each entity waits for itself here.
    pub team_cooldown: bool,
    /// The most uses in a turn; 0 for any number.
    pub max_uses: i64,
    pub effects: Vec<Effect>,
}

impl Chip {
    /// The values of the effects are those of doubles.
    pub open spec fn wf(self) -> bool {
        forall|i: int| 0 <= i < self.effects@.len() ==> (#[trigger] self.effects@[i]).wf()
    }
}

/// Where the chip with a number stands first.
pub open spec fn row_of(rows: Seq<Chip>, item: i64) -> Option<int>
    decreases rows.len(),
{
    if rows.len() == 0 {
        None
    } else {
        match row_of(rows.drop_last(), item) {
            Some(i) => Some(i),
            None => if rows.last().item == item {
                Some(rows.len() - 1)
            } else {
                None
            },
        }
    }
}

/// What stands first in the beginning of a list stands first in the list.
proof fn lemma_row_stays(rows: Seq<Chip>, n: int, item: i64)
    requires
        0 <= n <= rows.len(),
        row_of(rows.take(n), item) is Some,
    ensures
        row_of(rows, item) == row_of(rows.take(n), item),
    decreases rows.len() - n,
{
    if n == rows.len() {
        assert(rows.take(n) =~= rows);
    } else {
        assert(rows.take(n + 1).drop_last() =~= rows.take(n));
        lemma_row_stays(rows, n + 1, item);
    }
}

/// The chip with a number.
#[must_use]
pub fn lookup(rows: &[Chip], item: i64) -> (found: Option<&Chip>)
    ensures
        match row_of(rows@, item) {
            Some(i) => found == Some(&rows@[i]) && 0 <= i < rows@.len() && rows@[i].item == item,
            None => found is None,
        },
{
    let mut i: usize = 0;
    assert(rows@.take(0) =~= Seq::<Chip>::empty());
    while i < rows.len()
        invariant
            i <= rows@.len(),
            row_of(rows@.take(i as int), item) is None,
        decreases rows.len() - i,
    {
        assert(rows@.take(i + 1).drop_last() =~= rows@.take(i as int));
        if rows[i].item == item {
            proof {
                lemma_row_stays(rows@, i + 1, item);
            }
            return Some(&rows[i]);
        }
        i += 1;
    }
    assert(rows@.take(i as int) =~= rows@);
    None
}

/// The numbers of the effects of a chip that do nothing here; none where there
/// is no such chip.
#[must_use]
pub fn unsupported_effects(rows: &[Chip], item: i64) -> (ids: Option<Vec<u8>>)
    ensures
        match row_of(rows@, item) {
            Some(i) => ids matches Some(list) && list@ == crate::effects::unsupported_in(
                rows@[i].effects@,
            ),
            None => ids is None,
        },
{
    match lookup(rows, item) {
        Some(row) => Some(unsupported_ids(row.effects.as_slice())),
        None => None,
    }
}

/// A number as 8 bits; 0 where they do not hold it.
pub open spec fn small(n: i64) -> u8 {
    if 0 <= n <= 255 {
        n as u8
    } else {
        0
    }
}

/// A number as 8 bits.
fn shrink(n: i64) -> (r: u8)
    ensures
        r == small(n),
{
    if 0 <= n && n <= 255 {
        n as u8
    } else {
        0
    }
}

/// Whether a number is that of a member of 8 bits.
pub open spec fn small_in(t: Tree, field: Seq<char>, r: u8) -> bool {
    exists|n: i64| #[trigger]
        crate::catalog::int_in(crate::json::member_of(t, field), 0, n) && r == small(n)
}

/// Whether an effect is that of a document.
pub open spec fn effect_in(t: Tree, e: Effect) -> bool {
    &&& exists|id: u8| #[trigger] small_in(t, "id"@, id) && e.kind == crate::effects::kind_of(id)
    &&& crate::catalog::num_in(crate::json::member_of(t, "value1"@), e.value1)
    &&& crate::catalog::num_in(crate::json::member_of(t, "value2"@), e.value2)
    &&& crate::catalog::int_in(crate::json::member_of(t, "turns"@), 0, e.turns)
    &&& small_in(t, "targets"@, e.targets)
    &&& small_in(t, "modifiers"@, e.modifiers)
}

/// Whether effects are those of documents.
pub open spec fn effects_in(items: Seq<Tree>, list: Seq<Effect>) -> bool {
    &&& list.len() == items.len()
    &&& forall|i: int| 0 <= i < list.len() ==> effect_in(items[i], #[trigger] list[i])
}

/// Whether a chip is that of a document.
pub open spec fn chip_in(t: Tree, c: Chip) -> bool {
    &&& crate::catalog::int_in(crate::json::member_of(t, "id"@), 0, c.item)
    &&& c.name@ == crate::catalog::text_in(crate::json::member_of(t, "name"@))
    &&& crate::catalog::int_in(crate::json::member_of(t, "cost"@), 0, c.cost)
    &&& crate::catalog::int_in(crate::json::member_of(t, "min_range"@), 0, c.min_range)
    &&& crate::catalog::int_in(crate::json::member_of(t, "max_range"@), 0, c.max_range)
    &&& crate::catalog::int_in(crate::json::member_of(t, "launch_type"@), 0, c.launch_type)
    &&& crate::catalog::int_in(crate::json::member_of(t, "area"@), 1, c.area)
    &&& c.los == crate::catalog::flag_in(crate::json::member_of(t, "los"@), true)
    &&& crate::catalog::int_in(crate::json::member_of(t, "cooldown"@), 0, c.cooldown)
    &&& crate::catalog::int_in(
        crate::json::member_of(t, "initial_cooldown"@),
        0,
        c.initial_cooldown,
    )
    &&& c.team_cooldown == crate::catalog::flag_in(
        crate::json::member_of(t, "team_cooldown"@),
        false,
    )
    &&& crate::catalog::int_in(crate::json::member_of(t, "max_uses"@), 0, c.max_uses)
    &&& effects_in(
        crate::catalog::entries_in(crate::json::member_of(t, "effects"@)),
        c.effects@,
    )
}

/// The number of a member of 8 bits.
fn small_field(entry: &Value, field: &str) -> (r: u8)
    ensures
        small_in(crate::json::contents(*entry), field@, r),
{
    let n: i64 = int_field(entry, field, 0);
    let ghost t = crate::json::contents(*entry);
    assert(crate::catalog::int_in(crate::json::member_of(t, field@), 0, n));
    shrink(n)
}

/// The effect in a document.
#[must_use]
pub fn parse_effect(entry: &Value) -> (e: Effect)
    ensures
        effect_in(crate::json::contents(*entry), e),
        e.wf(),
{
    let id: u8 = small_field(entry, "id");
    assert(small_in(crate::json::contents(*entry), "id"@, id));
    Effect::from_upstream(
        id,
        num(entry, "value1"),
        num(entry, "value2"),
        int_field(entry, "turns", 0),
        small_field(entry, "targets"),
        small_field(entry, "modifiers"),
    )
}

/// The effects in documents.
#[must_use]
pub fn parse_effects(items: &[Value]) -> (list: Vec<Effect>)
    ensures
        effects_in(crate::json::all_contents(items@), list@),
        forall|i: int| 0 <= i < list@.len() ==> (#[trigger] list@[i]).wf(),
{
    let mut list: Vec<Effect> = Vec::new();
    let mut i: usize = 0;
    let ghost all = crate::json::all_contents(items@);
    while i < items.len()
        invariant
            i <= items@.len(),
            all == crate::json::all_contents(items@),
            list@.len() == i,
            forall|j: int| 0 <= j < i ==> effect_in(all[j], #[trigger] list@[j]) && list@[j].wf(),
        decreases items.len() - i,
    {
        list.push(parse_effect(&items[i]));
        i += 1;
    }
    list
}

/// The chip in a document.
#[must_use]
pub fn parse_chip(entry: &Value) -> (c: Chip)
    ensures
        chip_in(crate::json::contents(*entry), c),
        c.wf(),
{
    let items: Vec<Value> = entries(entry, "effects");
    Chip {
        item: int_field(entry, "id", 0),
        name: text(entry, "name"),
        cost: int_field(entry, "cost", 0),
        min_range: int_field(entry, "min_range", 0),
        max_range: int_field(entry, "max_range", 0),
        launch_type: int_field(entry, "launch_type", 0),
        area: int_field(entry, "area", 1),
        los: flag(entry, "los", true),
        cooldown: int_field(entry, "cooldown", 0),
        initial_cooldown: int_field(entry, "initial_cooldown", 0),
        team_cooldown: flag(entry, "team_cooldown", false),
        max_uses: int_field(entry, "max_uses", 0),
        effects: parse_effects(items.as_slice()),
    }
}

/// Whether chips are those of documents.
pub open spec fn chips_in(items: Seq<Tree>, list: Seq<Chip>) -> bool {
    &&& list.len() == items.len()
    &&& forall|i: int| 0 <= i < list.len() ==> chip_in(items[i], #[trigger] list[i])
}

/// Whether chips are those of a table; none where the document is none.
pub open spec fn table_in(t: Tree, list: Option<Vec<Chip>>) -> bool {
    match t {
        Tree::Object(m) if crate::catalog::keys_count(m) => list matches Some(l) && exists|
            items: Seq<Tree>,
        | #[trigger] crate::catalog::ordered_rows(m, items) && chips_in(items, l@),
        _ => list is None,
    }
}

/// The chips of a table in JSON, by the integers that its keys hold; none
/// where the text is no such table.
#[must_use]
pub fn catalog(json: &str) -> (list: Option<Vec<Chip>>)
    ensures
        match crate::json::parsed(json@) {
            Some(t) => table_in(t, list),
            None => list is None,
        },
        list matches Some(l) ==> forall|i: int| 0 <= i < l@.len() ==> (#[trigger] l@[i]).wf(),
{
    let items: Vec<Value> = match rows(json) {
        Some(items) => items,
        None => {
            return None;
        },
    };
    let ghost all = crate::json::all_contents(items@);
    let mut list: Vec<Chip> = Vec::new();
    let mut i: usize = 0;
    while i < items.len()
        invariant
            i <= items@.len(),
            all == crate::json::all_contents(items@),
            list@.len() == i,
            forall|j: int| 0 <= j < i ==> chip_in(all[j], #[trigger] list@[j]) && list@[j].wf(),
        decreases items.len() - i,
    {
        list.push(parse_chip(&items[i]));
        i += 1;
    }
    assert(chips_in(all, list@));
    Some(list)
}

} // verus!
