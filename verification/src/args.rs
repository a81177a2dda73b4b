//! What programs hand to the functions of a fight, and what these answer.

use crate::fighter::{
    STAT_ABSOLUTE_SHIELD, STAT_AGILITY, STAT_DAMAGE_RETURN, STAT_MAGIC,
    STAT_POWER, STAT_RELATIVE_SHIELD, STAT_RESISTANCE, STAT_SCIENCE,
    STAT_STRENGTH, STAT_WISDOM,
};
use vstd::prelude::*;
use vstd::string::*;

verus! {

/// What an argument is.
#[derive(Debug, Clone, Copy, PartialEq, Eq, Structural)]
pub enum ArgKind {
    Null,
    /// A number, whole or not.
    Number,
    Text,
    Array,
    /// A table from cells to words.
    Table,
    Function,
    Other,
}

/// An element of an array.
#[derive(Debug, Clone, Copy, PartialEq, Eq, Structural)]
pub struct Item {
    pub number: bool,
    /// The whole number that the element stands for.
    pub long: i64,
}

/// An argument of a program, as far as the functions of a fight read it.
#[derive(Debug)]
pub struct Arg {
    pub kind: ArgKind,
    /// The whole number that the argument stands for.
    pub long: i64,
    /// The words that the argument stands for.
    pub text: String,
    pub truthy: bool,
    /// The elements of an array.
    pub items: Vec<Item>,
    /// The number of a function.
    pub function: u64,
}

/// What a function answers.
#[derive(Debug)]
pub enum Answer {
    Null,
    Bool(bool),
    Int(i64),
    /// The square of a distance; none stands for the distance -1.
    Distance(Option<i32>),
    /// The root of the sum of the squares of two numbers.
    Hypotenuse(i64, i64),
    Text(String),
    List(Vec<i64>),
    /// The loadout with this name is to be looked up, and then
    /// [`wear_loadout`](crate::world::State::wear_loadout) goes on.
    Loadout(String, bool),
    /// The call cannot be carried out: an attack did what nothing models, it is
    /// not known what a chip summons, or there is no room for another fighter.
    Unsupported,
}

/// What an answer says.
#[verifier::ext_equal]
pub ghost enum Reply {
    Null,
    Bool(bool),
    Int(int),
    Distance(Option<int>),
    Hypotenuse(int, int),
    Text(Seq<char>),
    List(Seq<int>),
    Loadout(Seq<char>, bool),
    Unsupported,
}

impl View for Answer {
    type V = Reply;

    open spec fn view(&self) -> Reply {
        match self {
            Answer::Null => Reply::Null,
            Answer::Bool(b) => Reply::Bool(*b),
            Answer::Int(n) => Reply::Int(*n as int),
            Answer::Distance(None) => Reply::Distance(None),
            Answer::Distance(Some(n)) => Reply::Distance(Some(*n as int)),
            Answer::Hypotenuse(a, b) => Reply::Hypotenuse(*a as int, *b as int),
            Answer::Text(s) => Reply::Text(s@),
            Answer::List(l) => Reply::List(l@.map_values(|n: i64| n as int)),
            Answer::Loadout(s, b) => Reply::Loadout(s@, *b),
            Answer::Unsupported => Reply::Unsupported,
        }
    }
}

/// Which teams a list is about.
#[derive(Debug, Clone, Copy, PartialEq, Eq, Structural)]
pub enum Side {
    Allies,
    Enemies,
    Everyone,
}

impl Side {
    /// Whether a team belongs to the side, from the team of the caller.
    pub open spec fn takes(self, own: int, team: int) -> bool {
        match self {
            Side::Allies => team == own,
            Side::Enemies => team != own,
            Side::Everyone => true,
        }
    }
}

/// The functions that programs can call.
#[derive(Debug, Clone, Copy, PartialEq, Eq, Structural)]
pub enum Call {
    /// `getTurn`
    Turn,
    /// `getNearestEnemy`
    NearestEnemy,
    /// `getNearestAlly`
    NearestAlly,
    /// `getEnemies`, `getAllies`, `getEntities`, `getAliveEntities`
    Members(Side, bool),
    /// `getEnemiesCount`, `getAlliesCount`
    Count(Side),
    /// `moveToward`
    MoveToward,
    /// `moveTowardCell`
    MoveTowardCell,
    /// `moveAwayFrom`
    MoveAwayFrom,
    /// `moveAwayFromCell`
    MoveAwayFromCell,
    /// `getWinner`
    Winner,
    /// `setLoadout`
    SetLoadout,
    /// `getCellFromXY`
    CellFromXy,
    /// `getCellX`
    CellX,
    /// `getCellY`
    CellY,
    /// `isObstacle`
    IsObstacle,
    /// `getObstacles`
    Obstacles,
    /// `getCellContent`
    CellContent,
    /// `getCellDistance`
    CellDistance,
    /// `getDistance`
    Distance,
    /// `isOnSameLine`
    OnSameLine,
    /// `lineOfSight`
    LineOfSight,
    /// `getPath`
    Path,
    /// `getPathLength`
    PathLength,
    /// `getCell`
    Cell,
    /// `setWeapon`
    SetWeapon,
    /// `isStatic`
    IsStatic,
    /// `getLife`
    Life,
    /// `getTotalLife`, `getMaxLife`
    TotalLife,
    /// `getTP`
    Tp,
    /// `getMP`
    Mp,
    /// `getStrength`, `getAgility`, `getWisdom`, `getResistance`, `getScience`, `getMagic`, `getPower`, `getAbsoluteShield`, `getRelativeShield`, `getDamageReturn`
    Stat(usize),
    /// `getWeapon`
    Weapon,
    /// `getWeapons`
    Weapons,
    /// `getChips`
    Chips,
    /// `getName`
    Name,
    /// `getLevel`
    Level,
    /// `getTeam`
    Team,
    /// `isAlive`
    IsAlive,
    /// `isDead`
    IsDead,
    /// `useWeapon`
    UseWeapon,
    /// `getCooldown`
    Cooldown,
    /// `useChip`
    UseChip,
    /// `useChipOnCell`
    UseChipOnCell,
    /// `getCellToUseChip`
    CellToUseChip,
    /// `summon`
    Summon,
    /// `resurrect`
    Resurrect,
    /// `getEntity`
    Entity,
    /// `getSummons`
    Summons,
    /// `isSummon`
    IsSummon,
    /// `getSummoner`
    Summoner,
    /// `getBirthTurn`
    BirthTurn,
    /// `say`
    Say,
    /// `mark`
    Mark,
    /// `markText`
    MarkText,
    /// `clearMarks`
    ClearMarks,
}

/// The function with a name.
pub open spec fn call_named(name: Seq<char>) -> Option<Call> {
    if name == "getTurn"@ {
        Some(Call::Turn)
    } else if name == "getNearestEnemy"@ {
        Some(Call::NearestEnemy)
    } else if name == "getNearestAlly"@ {
        Some(Call::NearestAlly)
    } else if name == "getEnemies"@ {
        Some(Call::Members(Side::Enemies, true))
    } else if name == "getAllies"@ {
        Some(Call::Members(Side::Allies, true))
    } else if name == "getEntities"@ {
        Some(Call::Members(Side::Everyone, true))
    } else if name == "getAliveEntities"@ {
        Some(Call::Members(Side::Everyone, false))
    } else if name == "getEnemiesCount"@ {
        Some(Call::Count(Side::Enemies))
    } else if name == "getAlliesCount"@ {
        Some(Call::Count(Side::Allies))
    } else if name == "moveToward"@ {
        Some(Call::MoveToward)
    } else if name == "moveTowardCell"@ {
        Some(Call::MoveTowardCell)
    } else if name == "moveAwayFrom"@ {
        Some(Call::MoveAwayFrom)
    } else if name == "moveAwayFromCell"@ {
        Some(Call::MoveAwayFromCell)
    } else if name == "getWinner"@ {
        Some(Call::Winner)
    } else if name == "setLoadout"@ {
        Some(Call::SetLoadout)
    } else if name == "getCellFromXY"@ {
        Some(Call::CellFromXy)
    } else if name == "getCellX"@ {
        Some(Call::CellX)
    } else if name == "getCellY"@ {
        Some(Call::CellY)
    } else if name == "isObstacle"@ {
        Some(Call::IsObstacle)
    } else if name == "getObstacles"@ {
        Some(Call::Obstacles)
    } else if name == "getCellContent"@ {
        Some(Call::CellContent)
    } else if name == "getCellDistance"@ {
        Some(Call::CellDistance)
    } else if name == "getDistance"@ {
        Some(Call::Distance)
    } else if name == "isOnSameLine"@ {
        Some(Call::OnSameLine)
    } else if name == "lineOfSight"@ {
        Some(Call::LineOfSight)
    } else if name == "getPath"@ {
        Some(Call::Path)
    } else if name == "getPathLength"@ {
        Some(Call::PathLength)
    } else if name == "getCell"@ {
        Some(Call::Cell)
    } else if name == "setWeapon"@ {
        Some(Call::SetWeapon)
    } else if name == "isStatic"@ {
        Some(Call::IsStatic)
    } else if name == "getLife"@ {
        Some(Call::Life)
    } else if name == "getTotalLife"@ {
        Some(Call::TotalLife)
    } else if name == "getMaxLife"@ {
        Some(Call::TotalLife)
    } else if name == "getTP"@ {
        Some(Call::Tp)
    } else if name == "getMP"@ {
        Some(Call::Mp)
    } else if name == "getStrength"@ {
        Some(Call::Stat(STAT_STRENGTH))
    } else if name == "getAgility"@ {
        Some(Call::Stat(STAT_AGILITY))
    } else if name == "getWisdom"@ {
        Some(Call::Stat(STAT_WISDOM))
    } else if name == "getResistance"@ {
        Some(Call::Stat(STAT_RESISTANCE))
    } else if name == "getScience"@ {
        Some(Call::Stat(STAT_SCIENCE))
    } else if name == "getMagic"@ {
        Some(Call::Stat(STAT_MAGIC))
    } else if name == "getPower"@ {
        Some(Call::Stat(STAT_POWER))
    } else if name == "getAbsoluteShield"@ {
        Some(Call::Stat(STAT_ABSOLUTE_SHIELD))
    } else if name == "getRelativeShield"@ {
        Some(Call::Stat(STAT_RELATIVE_SHIELD))
    } else if name == "getDamageReturn"@ {
        Some(Call::Stat(STAT_DAMAGE_RETURN))
    } else if name == "getWeapon"@ {
        Some(Call::Weapon)
    } else if name == "getWeapons"@ {
        Some(Call::Weapons)
    } else if name == "getChips"@ {
        Some(Call::Chips)
    } else if name == "getName"@ {
        Some(Call::Name)
    } else if name == "getLevel"@ {
        Some(Call::Level)
    } else if name == "getTeam"@ {
        Some(Call::Team)
    } else if name == "isAlive"@ {
        Some(Call::IsAlive)
    } else if name == "isDead"@ {
        Some(Call::IsDead)
    } else if name == "useWeapon"@ {
        Some(Call::UseWeapon)
    } else if name == "getCooldown"@ {
        Some(Call::Cooldown)
    } else if name == "useChip"@ {
        Some(Call::UseChip)
    } else if name == "useChipOnCell"@ {
        Some(Call::UseChipOnCell)
    } else if name == "getCellToUseChip"@ {
        Some(Call::CellToUseChip)
    } else if name == "summon"@ {
        Some(Call::Summon)
    } else if name == "resurrect"@ {
        Some(Call::Resurrect)
    } else if name == "getEntity"@ {
        Some(Call::Entity)
    } else if name == "getSummons"@ {
        Some(Call::Summons)
    } else if name == "isSummon"@ {
        Some(Call::IsSummon)
    } else if name == "getSummoner"@ {
        Some(Call::Summoner)
    } else if name == "getBirthTurn"@ {
        Some(Call::BirthTurn)
    } else if name == "say"@ {
        Some(Call::Say)
    } else if name == "mark"@ {
        Some(Call::Mark)
    } else if name == "markText"@ {
        Some(Call::MarkText)
    } else if name == "clearMarks"@ {
        Some(Call::ClearMarks)
    } else {
        None
    }
}

/// Whether two texts are the same.
pub(crate) fn same_text(a: &str, b: &str) -> (same: bool)
    ensures
        same == (a@ == b@),
{
    let n: usize = a.unicode_len();
    if n != b.unicode_len() {
        return false;
    }
    let mut i: usize = 0;
    while i < n
        invariant
            n == a@.len(),
            n == b@.len(),
            i <= n,
            forall|j: int| 0 <= j < i ==> a@[j] == b@[j],
        decreases n - i,
    {
        if a.get_char(i) != b.get_char(i) {
            return false;
        }
        i += 1;
    }
    assert(a@ =~= b@);
    true
}

/// The function with a name.
#[must_use]
pub fn call_by_name(name: &str) -> (call: Option<Call>)
    ensures
        call == call_named(name@),
        call matches Some(Call::Stat(id)) ==> id < crate::fighter::STAT_COUNT,
{
    if same_text(name, "getTurn") {
        Some(Call::Turn)
    } else if same_text(name, "getNearestEnemy") {
        Some(Call::NearestEnemy)
    } else if same_text(name, "getNearestAlly") {
        Some(Call::NearestAlly)
    } else if same_text(name, "getEnemies") {
        Some(Call::Members(Side::Enemies, true))
    } else if same_text(name, "getAllies") {
        Some(Call::Members(Side::Allies, true))
    } else if same_text(name, "getEntities") {
        Some(Call::Members(Side::Everyone, true))
    } else if same_text(name, "getAliveEntities") {
        Some(Call::Members(Side::Everyone, false))
    } else if same_text(name, "getEnemiesCount") {
        Some(Call::Count(Side::Enemies))
    } else if same_text(name, "getAlliesCount") {
        Some(Call::Count(Side::Allies))
    } else if same_text(name, "moveToward") {
        Some(Call::MoveToward)
    } else if same_text(name, "moveTowardCell") {
        Some(Call::MoveTowardCell)
    } else if same_text(name, "moveAwayFrom") {
        Some(Call::MoveAwayFrom)
    } else if same_text(name, "moveAwayFromCell") {
        Some(Call::MoveAwayFromCell)
    } else if same_text(name, "getWinner") {
        Some(Call::Winner)
    } else if same_text(name, "setLoadout") {
        Some(Call::SetLoadout)
    } else if same_text(name, "getCellFromXY") {
        Some(Call::CellFromXy)
    } else if same_text(name, "getCellX") {
        Some(Call::CellX)
    } else if same_text(name, "getCellY") {
        Some(Call::CellY)
    } else if same_text(name, "isObstacle") {
        Some(Call::IsObstacle)
    } else if same_text(name, "getObstacles") {
        Some(Call::Obstacles)
    } else if same_text(name, "getCellContent") {
        Some(Call::CellContent)
    } else if same_text(name, "getCellDistance") {
        Some(Call::CellDistance)
    } else if same_text(name, "getDistance") {
        Some(Call::Distance)
    } else if same_text(name, "isOnSameLine") {
        Some(Call::OnSameLine)
    } else if same_text(name, "lineOfSight") {
        Some(Call::LineOfSight)
    } else if same_text(name, "getPath") {
        Some(Call::Path)
    } else if same_text(name, "getPathLength") {
        Some(Call::PathLength)
    } else if same_text(name, "getCell") {
        Some(Call::Cell)
    } else if same_text(name, "setWeapon") {
        Some(Call::SetWeapon)
    } else if same_text(name, "isStatic") {
        Some(Call::IsStatic)
    } else if same_text(name, "getLife") {
        Some(Call::Life)
    } else if same_text(name, "getTotalLife") {
        Some(Call::TotalLife)
    } else if same_text(name, "getMaxLife") {
        Some(Call::TotalLife)
    } else if same_text(name, "getTP") {
        Some(Call::Tp)
    } else if same_text(name, "getMP") {
        Some(Call::Mp)
    } else if same_text(name, "getStrength") {
        Some(Call::Stat(STAT_STRENGTH))
    } else if same_text(name, "getAgility") {
        Some(Call::Stat(STAT_AGILITY))
    } else if same_text(name, "getWisdom") {
        Some(Call::Stat(STAT_WISDOM))
    } else if same_text(name, "getResistance") {
        Some(Call::Stat(STAT_RESISTANCE))
    } else if same_text(name, "getScience") {
        Some(Call::Stat(STAT_SCIENCE))
    } else if same_text(name, "getMagic") {
        Some(Call::Stat(STAT_MAGIC))
    } else if same_text(name, "getPower") {
        Some(Call::Stat(STAT_POWER))
    } else if same_text(name, "getAbsoluteShield") {
        Some(Call::Stat(STAT_ABSOLUTE_SHIELD))
    } else if same_text(name, "getRelativeShield") {
        Some(Call::Stat(STAT_RELATIVE_SHIELD))
    } else if same_text(name, "getDamageReturn") {
        Some(Call::Stat(STAT_DAMAGE_RETURN))
    } else if same_text(name, "getWeapon") {
        Some(Call::Weapon)
    } else if same_text(name, "getWeapons") {
        Some(Call::Weapons)
    } else if same_text(name, "getChips") {
        Some(Call::Chips)
    } else if same_text(name, "getName") {
        Some(Call::Name)
    } else if same_text(name, "getLevel") {
        Some(Call::Level)
    } else if same_text(name, "getTeam") {
        Some(Call::Team)
    } else if same_text(name, "isAlive") {
        Some(Call::IsAlive)
    } else if same_text(name, "isDead") {
        Some(Call::IsDead)
    } else if same_text(name, "useWeapon") {
        Some(Call::UseWeapon)
    } else if same_text(name, "getCooldown") {
        Some(Call::Cooldown)
    } else if same_text(name, "useChip") {
        Some(Call::UseChip)
    } else if same_text(name, "useChipOnCell") {
        Some(Call::UseChipOnCell)
    } else if same_text(name, "getCellToUseChip") {
        Some(Call::CellToUseChip)
    } else if same_text(name, "summon") {
        Some(Call::Summon)
    } else if same_text(name, "resurrect") {
        Some(Call::Resurrect)
    } else if same_text(name, "getEntity") {
        Some(Call::Entity)
    } else if same_text(name, "getSummons") {
        Some(Call::Summons)
    } else if same_text(name, "isSummon") {
        Some(Call::IsSummon)
    } else if same_text(name, "getSummoner") {
        Some(Call::Summoner)
    } else if same_text(name, "getBirthTurn") {
        Some(Call::BirthTurn)
    } else if same_text(name, "say") {
        Some(Call::Say)
    } else if same_text(name, "mark") {
        Some(Call::Mark)
    } else if same_text(name, "markText") {
        Some(Call::MarkText)
    } else if same_text(name, "clearMarks") {
        Some(Call::ClearMarks)
    } else {
        None
    }
}

/// The whole number that the `i`-th argument stands for; 0 without one.
pub open spec fn long_at(args: Seq<Arg>, i: int) -> i64 {
    if i < args.len() {
        args[i].long
    } else {
        0
    }
}

/// The whole number that the `i`-th argument stands for; 0 without one.
pub(crate) fn long_arg(args: &[Arg], i: usize) -> (n: i64)
    ensures
        n == long_at(args@, i as int),
{
    if i < args.len() {
        args[i].long
    } else {
        0
    }
}

/// How many movement points the second argument allows; -1 without one.
pub open spec fn points_at(args: Seq<Arg>) -> i64 {
    if args.len() > 1 {
        args[1].long
    } else {
        -1i64
    }
}

/// How many movement points the second argument allows; -1 without one.
pub(crate) fn points_arg(args: &[Arg]) -> (n: i64)
    ensures
        n == points_at(args@),
{
    if args.len() > 1 {
        args[1].long
    } else {
        -1
    }
}

/// The words of the first argument; none without one.
pub open spec fn text_at(args: Seq<Arg>) -> Seq<char> {
    if args.len() > 0 {
        args[0].text@
    } else {
        Seq::empty()
    }
}

/// The words of the first argument; none without one.
pub(crate) fn text_arg(args: &[Arg]) -> (s: String)
    ensures
        s@ == text_at(args@),
{
    if args.len() > 0 {
        String::from_str(args[0].text.as_str())
    } else {
        let s = String::new();
        assert(s@ =~= Seq::<char>::empty());
        s
    }
}

/// The 32 lowest bits of a number, as a signed number.
pub open spec fn narrow(n: i64) -> i32 {
    n as i32
}

/// The 32 lowest bits of a number, as a signed number.
pub(crate) fn narrowed(n: i64) -> (r: i32)
    ensures
        r == narrow(n),
{
    #[verifier::truncate]
    (n as i32)
}

/// A number that fits into 32 bits.
pub open spec fn fitting(n: i64) -> Option<i32> {
    if i32::MIN <= n <= i32::MAX {
        Some(n as i32)
    } else {
        None
    }
}

/// A number that fits into 32 bits.
pub(crate) fn fit(n: i64) -> (r: Option<i32>)
    ensures
        r == fitting(n),
{
    if n < i32::MIN as i64 || n > i32::MAX as i64 {
        None
    } else {
        Some(n as i32)
    }
}

} // verus!
