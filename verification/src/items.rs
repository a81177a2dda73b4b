//! Tables of weapons, chips and bulbs, and what a fight takes from them.

use crate::attack::{Area, EffectModifiers, EffectParams, EffectTargets, EffectType};
use crate::number::Real;
use crate::world::{BulbTemplate, ChipSpec, WeaponSpec};
use vstd::prelude::*;
use vstd::string::*;

verus! {

/// An effect in a table.
#[derive(Debug, Clone, Copy, PartialEq, Eq, Structural)]
pub struct RawEffect {
    /// The number of its kind.
    pub id: i32,
    pub value1: Real,
    pub value2: Real,
    pub turns: i32,
    /// The bits of who is hit.
    pub targets: i32,
    /// The bits of how it applies.
    pub modifiers: i32,
}

/// A weapon in a table.
#[derive(Debug)]
pub struct RawWeapon {
    pub item: i32,
    pub name: String,
    pub cost: i32,
    pub min_range: i32,
    pub max_range: i32,
    pub launch_type: i32,
    /// The number of its area.
    pub area: i32,
    pub los: bool,
    /// Uses per turn; -1 is without limit.
    pub max_uses: i32,
    pub forgotten: bool,
    pub effects: Vec<RawEffect>,
}

/// A chip in a table.
#[derive(Debug)]
pub struct RawChip {
    pub item: i32,
    pub name: String,
    pub cost: i32,
    pub min_range: i32,
    pub max_range: i32,
    pub launch_type: i32,
    /// The number of its area.
    pub area: i32,
    pub los: bool,
    /// Uses per turn; -1 is without limit.
    pub max_uses: i32,
    /// Turns to cool down; -1 is the rest of the fight.
    pub cooldown: i32,
    pub initial_cooldown: i32,
    pub team_cooldown: bool,
    /// The level of what it summons.
    pub level: i32,
    pub effects: Vec<RawEffect>,
}

/// A bulb in a table: ranges of characteristics and the chips that it has.
#[derive(Debug)]
pub struct RawBulb {
    pub id: i32,
    pub name: String,
    pub life: (i32, i32),
    pub strength: (i32, i32),
    pub wisdom: (i32, i32),
    pub agility: (i32, i32),
    pub resistance: (i32, i32),
    pub science: (i32, i32),
    pub magic: (i32, i32),
    pub tp: (i32, i32),
    pub mp: (i32, i32),
    pub chips: Vec<i32>,
}

impl RawEffect {
    /// The kind is one of those that there are.
    pub open spec fn known(self) -> bool {
        1 <= self.id <= 62
    }
}

/// Every effect of a list is of a kind that there is.
pub open spec fn all_known(effects: Seq<RawEffect>) -> bool {
    forall|i: int| 0 <= i < effects.len() ==> (#[trigger] effects[i]).known()
}

impl RawWeapon {
    /// Its area and the kinds of its effects are among those that there are.
    pub open spec fn wf(self) -> bool {
        1 <= self.area <= 15 && all_known(self.effects@)
    }
}

impl RawChip {
    /// Its area and the kinds of its effects are among those that there are.
    pub open spec fn wf(self) -> bool {
        1 <= self.area <= 15 && all_known(self.effects@)
    }
}

/// Where a number stands first.
pub open spec fn first_at(ids: Seq<i32>, id: i32) -> Option<int>
    decreases ids.len(),
{
    if ids.len() == 0 {
        None
    } else {
        match first_at(ids.drop_last(), id) {
            Some(i) => Some(i),
            None => if ids.last() == id {
                Some(ids.len() - 1)
            } else {
                None
            },
        }
    }
}

/// A number is found where it stands, if it stands anywhere.
pub proof fn lemma_first_at(ids: Seq<i32>, id: i32)
    ensures
        match first_at(ids, id) {
            Some(i) => 0 <= i < ids.len() && ids[i] == id && forall|j: int|
                0 <= j < i ==> #[trigger] ids[j] != id,
            None => !ids.contains(id),
        },
    decreases ids.len(),
{
    if ids.len() > 0 {
        let rest = ids.drop_last();
        lemma_first_at(rest, id);
        assert(forall|j: int| 0 <= j < rest.len() ==> rest[j] == ids[j]);
        if first_at(rest, id) is None && ids.last() != id {
            assert forall|j: int| 0 <= j < ids.len() implies ids[j] != id by {
                if j < rest.len() {
                    assert(rest.contains(rest[j]));
                }
            }
        } else if first_at(rest, id) is None {
            assert forall|j: int| 0 <= j < rest.len() implies #[trigger] ids[j] != id by {
                assert(rest.contains(rest[j]));
            }
        }
    }
}

proof fn lemma_first_stays(ids: Seq<i32>, id: i32, n: int)
    requires
        0 <= n <= ids.len(),
        first_at(ids.take(n), id) is Some,
    ensures
        first_at(ids, id) == first_at(ids.take(n), id),
    decreases ids.len(),
{
    if n < ids.len() {
        assert(ids.drop_last().take(n) =~= ids.take(n));
        lemma_first_stays(ids.drop_last(), id, n);
    } else {
        assert(ids.take(n) =~= ids);
    }
}

/// Where a number stands first.
fn find_id(ids: &[i32], id: i32) -> (at: Option<usize>)
    ensures
        match at {
            Some(k) => first_at(ids@, id) == Some(k as int) && k < ids@.len(),
            None => first_at(ids@, id) is None,
        },
{
    let mut i: usize = 0;
    while i < ids.len()
        invariant
            i <= ids@.len(),
            first_at(ids@.take(i as int), id) is None,
        decreases ids.len() - i,
    {
        assert(ids@.take(i + 1).drop_last() =~= ids@.take(i as int));
        if ids[i] == id {
            proof {
                lemma_first_stays(ids@, id, i + 1);
            }
            return Some(i);
        }
        i += 1;
    }
    assert(ids@.take(i as int) =~= ids@);
    None
}

/// The numbers of the weapons of a table.
pub open spec fn weapon_numbers(rows: Seq<RawWeapon>) -> Seq<i32> {
    rows.map_values(|w: RawWeapon| w.item)
}

/// The numbers of the chips of a table.
pub open spec fn chip_numbers(rows: Seq<RawChip>) -> Seq<i32> {
    rows.map_values(|c: RawChip| c.item)
}

/// The numbers of the bulbs of a table.
pub open spec fn bulb_numbers(rows: Seq<RawBulb>) -> Seq<i32> {
    rows.map_values(|b: RawBulb| b.id)
}

/// The numbers of the weapons, as the table has them.
#[must_use]
pub fn weapon_ids(rows: &[RawWeapon]) -> (ids: Vec<i32>)
    ensures
        ids@ == weapon_numbers(rows@),
{
    let mut ids: Vec<i32> = Vec::new();
    let mut i: usize = 0;
    while i < rows.len()
        invariant
            i <= rows@.len(),
            ids@ == weapon_numbers(rows@).take(i as int),
        decreases rows.len() - i,
    {
        ids.push(rows[i].item);
        i += 1;
        assert(ids@ =~= weapon_numbers(rows@).take(i as int));
    }
    assert(weapon_numbers(rows@).take(i as int) =~= weapon_numbers(rows@));
    ids
}

/// The numbers of the chips, as the table has them.
#[must_use]
pub fn chip_ids(rows: &[RawChip]) -> (ids: Vec<i32>)
    ensures
        ids@ == chip_numbers(rows@),
{
    let mut ids: Vec<i32> = Vec::new();
    let mut i: usize = 0;
    while i < rows.len()
        invariant
            i <= rows@.len(),
            ids@ == chip_numbers(rows@).take(i as int),
        decreases rows.len() - i,
    {
        ids.push(rows[i].item);
        i += 1;
        assert(ids@ =~= chip_numbers(rows@).take(i as int));
    }
    assert(chip_numbers(rows@).take(i as int) =~= chip_numbers(rows@));
    ids
}

/// The numbers of the bulbs, as the table has them.
#[must_use]
pub fn bulb_ids(rows: &[RawBulb]) -> (ids: Vec<i32>)
    ensures
        ids@ == bulb_numbers(rows@),
{
    let mut ids: Vec<i32> = Vec::new();
    let mut i: usize = 0;
    while i < rows.len()
        invariant
            i <= rows@.len(),
            ids@ == bulb_numbers(rows@).take(i as int),
        decreases rows.len() - i,
    {
        ids.push(rows[i].id);
        i += 1;
        assert(ids@ =~= bulb_numbers(rows@).take(i as int));
    }
    assert(bulb_numbers(rows@).take(i as int) =~= bulb_numbers(rows@));
    ids
}

/// Whether an effect is that of a table; bits without a meaning are dropped.
pub open spec fn made_of(e: EffectParams, raw: RawEffect) -> bool {
    &&& e.effect.number() == raw.id
    &&& e.value1 == raw.value1
    &&& e.value2 == raw.value2
    &&& e.turns == raw.turns
    &&& e.targets@ == raw.targets & 31
    &&& e.modifiers@ == raw.modifiers & 31
}

/// Whether effects are those of a table.
pub open spec fn all_made_of(list: Seq<EffectParams>, raw: Seq<RawEffect>) -> bool {
    &&& list.len() == raw.len()
    &&& forall|i: int| 0 <= i < list.len() ==> made_of(#[trigger] list[i], raw[i])
}

/// The effects of a table.
fn effect_params(effects: &[RawEffect]) -> (list: Vec<EffectParams>)
    requires
        all_known(effects@),
    ensures
        all_made_of(list@, effects@),
{
    let mut list: Vec<EffectParams> = Vec::new();
    let mut i: usize = 0;
    while i < effects.len()
        invariant
            all_known(effects@),
            i <= effects@.len(),
            list@.len() == i,
            forall|j: int| 0 <= j < i ==> made_of(#[trigger] list@[j], effects@[j]),
        decreases effects.len() - i,
    {
        let raw: RawEffect = effects[i];
        assert(effects@[i as int].known());
        if let Some(effect) = EffectType::from_id(raw.id) {
            list.push(
                EffectParams {
                    effect,
                    value1: raw.value1,
                    value2: raw.value2,
                    turns: raw.turns,
                    targets: EffectTargets::from_bits_truncate(raw.targets),
                    modifiers: EffectModifiers::from_bits_truncate(raw.modifiers),
                },
            );
        }
        i += 1;
    }
    list
}

/// The area with a number.
fn area_of(area: i32) -> (a: Area)
    requires
        1 <= area <= 15,
    ensures
        a.number() == area,
{
    match Area::from_id(area) {
        Some(a) => a,
        None => Area::SingleCell,
    }
}

/// The weapon with a number, for a fight; none where the table has no such
/// weapon.
#[must_use]
pub fn weapon_spec(rows: &[RawWeapon], id: i32) -> (spec: Option<WeaponSpec>)
    requires
        forall|i: int| 0 <= i < rows@.len() ==> (#[trigger] rows@[i]).wf(),
    ensures
        match first_at(weapon_numbers(rows@), id) {
            Some(i) => {
                let w = rows@[i];
                &&& spec matches Some(s)
                &&& s.id == w.item
                &&& s.cost == w.cost
                &&& s.min_range == w.min_range
                &&& s.max_range == w.max_range
                &&& s.launch_type == w.launch_type
                &&& s.needs_los == w.los
                &&& s.max_uses == w.max_uses
                &&& s.area.number() == w.area
                &&& all_made_of(s.effects@, w.effects@)
                &&& s.forgotten == w.forgotten
            },
            None => spec is None,
        },
{
    let ids: Vec<i32> = weapon_ids(rows);
    match find_id(ids.as_slice(), id) {
        Some(i) => {
            let w: &RawWeapon = &rows[i];
            assert(rows@[i as int].wf());
            Some(
                WeaponSpec {
                    id: w.item,
                    cost: w.cost,
                    min_range: w.min_range,
                    max_range: w.max_range,
                    launch_type: w.launch_type,
                    needs_los: w.los,
                    max_uses: w.max_uses,
                    area: area_of(w.area),
                    effects: effect_params(w.effects.as_slice()),
                    forgotten: w.forgotten,
                },
            )
        },
        None => None,
    }
}

/// The chip with a number, for a fight; none where the table has no such
/// chip.
#[must_use]
pub fn chip_spec(rows: &[RawChip], id: i32) -> (spec: Option<ChipSpec>)
    requires
        forall|i: int| 0 <= i < rows@.len() ==> (#[trigger] rows@[i]).wf(),
    ensures
        match first_at(chip_numbers(rows@), id) {
            Some(i) => {
                let c = rows@[i];
                &&& spec matches Some(s)
                &&& s.id == c.item
                &&& s.cost == c.cost
                &&& s.min_range == c.min_range
                &&& s.max_range == c.max_range
                &&& s.launch_type == c.launch_type
                &&& s.needs_los == c.los
                &&& s.max_uses == c.max_uses
                &&& s.area.number() == c.area
                &&& all_made_of(s.effects@, c.effects@)
                &&& s.cooldown == c.cooldown
                &&& s.team_cooldown == c.team_cooldown
                &&& s.initial_cooldown == c.initial_cooldown
                &&& s.level == c.level
            },
            None => spec is None,
        },
{
    let ids: Vec<i32> = chip_ids(rows);
    match find_id(ids.as_slice(), id) {
        Some(i) => {
            let c: &RawChip = &rows[i];
            assert(rows@[i as int].wf());
            Some(
                ChipSpec {
                    id: c.item,
                    cost: c.cost,
                    min_range: c.min_range,
                    max_range: c.max_range,
                    launch_type: c.launch_type,
                    needs_los: c.los,
                    max_uses: c.max_uses,
                    area: area_of(c.area),
                    effects: effect_params(c.effects.as_slice()),
                    cooldown: c.cooldown,
                    team_cooldown: c.team_cooldown,
                    initial_cooldown: c.initial_cooldown,
                    level: c.level,
                },
            )
        },
        None => None,
    }
}

/// The bulb with a number, for a fight; none where the table has no such
/// bulb.
#[must_use]
pub fn bulb_template(rows: &[RawBulb], id: i32) -> (template: Option<BulbTemplate>)
    ensures
        match first_at(bulb_numbers(rows@), id) {
            Some(i) => {
                let b = rows@[i];
                &&& template matches Some(t)
                &&& t.id == b.id
                &&& t.name@ == b.name@
                &&& t.life == b.life
                &&& t.strength == b.strength
                &&& t.wisdom == b.wisdom
                &&& t.agility == b.agility
                &&& t.resistance == b.resistance
                &&& t.science == b.science
                &&& t.magic == b.magic
                &&& t.tp == b.tp
                &&& t.mp == b.mp
                &&& t.chips@ == b.chips@
            },
            None => template is None,
        },
{
    let ids: Vec<i32> = bulb_ids(rows);
    match find_id(ids.as_slice(), id) {
        Some(i) => {
            let b: &RawBulb = &rows[i];
            let mut chips: Vec<i32> = Vec::new();
            let mut k: usize = 0;
            while k < b.chips.len()
                invariant
                    k <= b.chips@.len(),
                    chips@ == b.chips@.take(k as int),
                decreases b.chips.len() - k,
            {
                chips.push(b.chips[k]);
                k += 1;
                assert(chips@ =~= b.chips@.take(k as int));
            }
            assert(b.chips@.take(k as int) =~= b.chips@);
            Some(
                BulbTemplate {
                    id: b.id,
                    name: String::from_str(b.name.as_str()),
                    life: b.life,
                    strength: b.strength,
                    wisdom: b.wisdom,
                    agility: b.agility,
                    resistance: b.resistance,
                    science: b.science,
                    magic: b.magic,
                    tp: b.tp,
                    mp: b.mp,
                    chips,
                },
            )
        },
        None => None,
    }
}

/// Whether nothing happens in a fight for an effect of the kind.
pub open spec fn is_idle(number: int) -> bool {
    33 <= number <= 36 || number == 50 || number == 56 || number == 58
}

/// The kinds of effects of a table for which nothing happens in a fight, as
/// they come.
pub open spec fn idle_among(effects: Seq<RawEffect>) -> Seq<int>
    decreases effects.len(),
{
    if effects.len() == 0 {
        Seq::empty()
    } else if is_idle(effects.last().id as int) {
        idle_among(effects.drop_last()).push(effects.last().id as int)
    } else {
        idle_among(effects.drop_last())
    }
}

/// The numbers of kinds.
pub open spec fn kind_numbers(kinds: Seq<EffectType>) -> Seq<int> {
    kinds.map_values(|k: EffectType| k.number())
}

/// The kinds of effects for which nothing happens in a fight.
fn unsupported_of(effects: &[RawEffect]) -> (kinds: Vec<EffectType>)
    requires
        all_known(effects@),
    ensures
        kind_numbers(kinds@) == idle_among(effects@),
{
    let mut kinds: Vec<EffectType> = Vec::new();
    let mut i: usize = 0;
    assert(effects@.take(0) =~= Seq::<RawEffect>::empty());
    assert(kind_numbers(kinds@) =~= Seq::<int>::empty());
    while i < effects.len()
        invariant
            all_known(effects@),
            i <= effects@.len(),
            kind_numbers(kinds@) == idle_among(effects@.take(i as int)),
        decreases effects.len() - i,
    {
        let ghost before = kind_numbers(kinds@);
        assert(effects@.take(i + 1).drop_last() =~= effects@.take(i as int));
        assert(effects@[i as int].known());
        if let Some(kind) = EffectType::from_id(effects[i].id) {
            if !kind.is_modelled() {
                kinds.push(kind);
                assert(kind_numbers(kinds@) =~= before.push(kind.number()));
            }
        }
        i += 1;
    }
    assert(effects@.take(i as int) =~= effects@);
    kinds
}

/// The kinds of effects of a weapon for which nothing happens in a fight, as
/// they come; none where the table has no such weapon.
#[must_use]
pub fn weapon_unsupported_effect_types(rows: &[RawWeapon], id: i32) -> (kinds: Option<
    Vec<EffectType>,
>)
    requires
        forall|i: int| 0 <= i < rows@.len() ==> (#[trigger] rows@[i]).wf(),
    ensures
        match first_at(weapon_numbers(rows@), id) {
            Some(i) => kinds matches Some(list) && kind_numbers(list@) == idle_among(
                rows@[i].effects@,
            ),
            None => kinds is None,
        },
{
    let ids: Vec<i32> = weapon_ids(rows);
    match find_id(ids.as_slice(), id) {
        Some(i) => {
            assert(rows@[i as int].wf());
            Some(unsupported_of(rows[i].effects.as_slice()))
        },
        None => None,
    }
}

/// The kinds of effects of a chip for which nothing happens in a fight, as
/// they come; none where the table has no such chip.
#[must_use]
pub fn chip_unsupported_effect_types(rows: &[RawChip], id: i32) -> (kinds: Option<Vec<EffectType>>)
    requires
        forall|i: int| 0 <= i < rows@.len() ==> (#[trigger] rows@[i]).wf(),
    ensures
        match first_at(chip_numbers(rows@), id) {
            Some(i) => kinds matches Some(list) && kind_numbers(list@) == idle_among(
                rows@[i].effects@,
            ),
            None => kinds is None,
        },
{
    let ids: Vec<i32> = chip_ids(rows);
    match find_id(ids.as_slice(), id) {
        Some(i) => {
            assert(rows@[i as int].wf());
            Some(unsupported_of(rows[i].effects.as_slice()))
        },
        None => None,
    }
}

} // verus!
