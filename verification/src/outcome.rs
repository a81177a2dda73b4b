//! The report of a fight as a JSON document.

use crate::actions::ActionLog;
use crate::fighter::{
    Fighter, FighterView, Team, TeamView, STAT_AGILITY, STAT_FREQUENCY, STAT_MAGIC,
    STAT_RESISTANCE, STAT_SCIENCE, STAT_STRENGTH, STAT_WISDOM,
};
use crate::json::Tree;
use crate::map::{Cell, GameMap};
use std::collections::BTreeMap;
use vstd::prelude::*;
use vstd::std_specs::iter::IteratorSpec;

verus! {

/// Where a fighter stands, or null.
pub open spec fn place_tree(cell: Option<usize>) -> Tree {
    match cell {
        Some(c) => Tree::Int(c as int),
        None => Tree::Null,
    }
}

/// What the report says of a fighter.
pub open spec fn snapshot(f: FighterView) -> Tree {
    Tree::Object(
        crate::json::no_entries()
            .insert("id"@, Tree::Int(f.fid as int))
            .insert("level"@, Tree::Int(f.level as int))
            .insert("skin"@, Tree::Int(0))
            .insert("hat"@, Tree::Null)
            .insert("metal"@, Tree::Bool(false))
            .insert("face"@, Tree::Int(0))
            .insert("life"@, Tree::Int(f.life as int))
            .insert("strength"@, Tree::Int(f.stat(STAT_STRENGTH as int) as int))
            .insert("wisdom"@, Tree::Int(f.stat(STAT_WISDOM as int) as int))
            .insert("agility"@, Tree::Int(f.stat(STAT_AGILITY as int) as int))
            .insert("resistance"@, Tree::Int(f.stat(STAT_RESISTANCE as int) as int))
            .insert("frequency"@, Tree::Int(f.stat(STAT_FREQUENCY as int) as int))
            .insert("science"@, Tree::Int(f.stat(STAT_SCIENCE as int) as int))
            .insert("magic"@, Tree::Int(f.stat(STAT_MAGIC as int) as int))
            .insert("tp"@, Tree::Int(f.tp() as int))
            .insert("mp"@, Tree::Int(f.mp() as int))
            .insert("team"@, Tree::Int(f.team + 1))
            .insert("name"@, Tree::Str(f.name))
            .insert("cellPos"@, place_tree(f.cell))
            .insert("farmer"@, Tree::Int(f.farmer as int))
            .insert("type"@, Tree::Int(0))
            .insert("orientation"@, Tree::Int(-1))
            .insert("summon"@, Tree::Bool(false)),
    )
}

fn place_value(cell: Option<usize>) -> (v: serde_json::Value)
    ensures
        crate::json::contents(v) == place_tree(cell),
{
    match cell {
        Some(c) => crate::json::index(c),
        None => crate::json::null(),
    }
}

/// What the report says of a fighter.
#[must_use]
pub fn entity_snapshot(f: &Fighter) -> (v: serde_json::Value)
    requires
        f.team < usize::MAX,
    ensures
        crate::json::contents(v) == snapshot(f@),
{
    let mut m = crate::json::no_members();
    crate::json::put(&mut m, "id", crate::json::index(f.fid));
    crate::json::put(&mut m, "level", crate::json::number(f.level as i64));
    crate::json::put(&mut m, "skin", crate::json::number(0));
    crate::json::put(&mut m, "hat", crate::json::null());
    crate::json::put(&mut m, "metal", crate::json::flag(false));
    crate::json::put(&mut m, "face", crate::json::number(0));
    crate::json::put(&mut m, "life", crate::json::number(f.life as i64));
    crate::json::put(&mut m, "strength", crate::json::number(f.stat(STAT_STRENGTH) as i64));
    crate::json::put(&mut m, "wisdom", crate::json::number(f.stat(STAT_WISDOM) as i64));
    crate::json::put(&mut m, "agility", crate::json::number(f.stat(STAT_AGILITY) as i64));
    crate::json::put(&mut m, "resistance", crate::json::number(f.stat(STAT_RESISTANCE) as i64));
    crate::json::put(&mut m, "frequency", crate::json::number(f.stat(STAT_FREQUENCY) as i64));
    crate::json::put(&mut m, "science", crate::json::number(f.stat(STAT_SCIENCE) as i64));
    crate::json::put(&mut m, "magic", crate::json::number(f.stat(STAT_MAGIC) as i64));
    crate::json::put(&mut m, "tp", crate::json::number(f.tp() as i64));
    crate::json::put(&mut m, "mp", crate::json::number(f.mp() as i64));
    crate::json::put(&mut m, "team", crate::json::index(f.team + 1));
    crate::json::put(&mut m, "name", crate::json::text(f.name.clone()));
    crate::json::put(&mut m, "cellPos", place_value(f.cell));
    crate::json::put(&mut m, "farmer", crate::json::number(f.farmer));
    crate::json::put(&mut m, "type", crate::json::number(0));
    crate::json::put(&mut m, "orientation", crate::json::number(-1));
    crate::json::put(&mut m, "summon", crate::json::flag(false));
    crate::json::object(m)
}

/// The sizes of the obstacles among the first `n` cells, by their ids.
pub open spec fn obstacle_entries(cells: Seq<Cell>, n: nat) -> Map<Seq<char>, Tree>
    decreases n,
{
    if n == 0 {
        crate::json::no_entries()
    } else {
        let before = obstacle_entries(cells, (n - 1) as nat);
        let c = cells[n - 1];
        if !c.walkable && c.obstacle_size > 0 {
            before.insert(crate::text::decimal(c.id as int), Tree::Int(c.obstacle_size as int))
        } else {
            before
        }
    }
}

/// What the report says of a map. Its height is reported as its width.
pub open spec fn map_tree(board: crate::map::Board) -> Tree {
    Tree::Object(
        crate::json::no_entries()
            .insert("obstacles"@, Tree::Object(obstacle_entries(board.cells, board.cells.len())))
            .insert("type"@, Tree::Int(board.map_type))
            .insert("width"@, Tree::Int(board.width))
            .insert("height"@, Tree::Int(board.width)),
    )
}

/// What the report says of a map.
#[must_use]
pub fn map_json(map: &GameMap) -> (v: serde_json::Value)
    requires
        map.wf(),
    ensures
        crate::json::contents(v) == map_tree(map@),
{
    proof {
        crate::map::lemma_cell_count_limit(map@);
    }
    let mut obstacles = crate::json::no_members();
    let mut i: usize = 0;
    while i < map.cells.len()
        invariant
            map.wf(),
            map.cells@.len() <= 0x4001_0000,
            i <= map.cells@.len(),
            crate::json::members(obstacles) == obstacle_entries(map.cells@, i as nat),
        decreases map.cells.len() - i,
    {
        let c: &Cell = &map.cells[i];
        if !c.walkable && c.obstacle_size > 0 {
            assert(c.id == i);
            crate::json::set_member(
                &mut obstacles,
                crate::text::decimal_text(c.id as i64),
                crate::json::number(c.obstacle_size as i64),
            );
        }
        i += 1;
    }
    let mut m = crate::json::no_members();
    crate::json::put(&mut m, "obstacles", crate::json::object(obstacles));
    crate::json::put(&mut m, "type", crate::json::number(map.map_type as i64));
    crate::json::put(&mut m, "width", crate::json::number(map.width as i64));
    crate::json::put(&mut m, "height", crate::json::number(map.width as i64));
    crate::json::object(m)
}

/// Whether the first `n` members of a team are dead, by their real numbers,
/// after what was known before.
pub open spec fn dead_members(
    known: Map<Seq<char>, Tree>,
    list: Seq<usize>,
    fighters: Seq<FighterView>,
    n: nat,
) -> Map<Seq<char>, Tree>
    decreases n,
{
    if n == 0 {
        known
    } else {
        let f = fighters[list[n - 1] as int];
        dead_members(known, list, fighters, (n - 1) as nat).insert(
            crate::text::decimal(f.id as int),
            Tree::Bool(f.is_dead()),
        )
    }
}

/// Whether the members of the first `n` teams are dead, by their real numbers.
pub open spec fn dead_entries(teams: Seq<TeamView>, fighters: Seq<FighterView>, n: nat) -> Map<
    Seq<char>,
    Tree,
>
    decreases n,
{
    if n == 0 {
        crate::json::no_entries()
    } else {
        let list = teams[n - 1].fighters;
        dead_members(dead_entries(teams, fighters, (n - 1) as nat), list, fighters, list.len())
    }
}

/// The teams of a list, as they are.
pub open spec fn team_views(teams: Seq<Team>) -> Seq<TeamView> {
    teams.map_values(|t: Team| t@)
}

/// Who is dead, by real number.
#[must_use]
pub fn dead_report(teams: &[Team], fighters: &[Fighter]) -> (v: serde_json::Value)
    requires
        forall|t: int|
            0 <= t < teams@.len() ==> crate::fighter::all_below(
                (#[trigger] teams@[t]).fighters@,
                fighters@.len() as int,
            ),
    ensures
        crate::json::contents(v) == Tree::Object(
            dead_entries(team_views(teams@), crate::fighter::views(fighters@), teams@.len()),
        ),
{
    let ghost views = crate::fighter::views(fighters@);
    let ghost tv = team_views(teams@);
    let mut dead = crate::json::no_members();
    let mut t: usize = 0;
    while t < teams.len()
        invariant
            forall|t: int|
                0 <= t < teams@.len() ==> crate::fighter::all_below(
                    (#[trigger] teams@[t]).fighters@,
                    fighters@.len() as int,
                ),
            views == crate::fighter::views(fighters@),
            tv == team_views(teams@),
            t <= teams@.len(),
            crate::json::members(dead) == dead_entries(tv, views, t as nat),
        decreases teams.len() - t,
    {
        let ghost known = crate::json::members(dead);
        let list: &Vec<usize> = &teams[t].fighters;
        assert(tv[t as int].fighters == list@);
        assert(crate::fighter::all_below(teams@[t as int].fighters@, fighters@.len() as int));
        let mut i: usize = 0;
        while i < list.len()
            invariant
                crate::fighter::all_below(list@, fighters@.len() as int),
                views == crate::fighter::views(fighters@),
                i <= list@.len(),
                crate::json::members(dead) == dead_members(known, list@, views, i as nat),
            decreases list.len() - i,
        {
            assert(list@[i as int] < fighters@.len());
            let f: &Fighter = &fighters[list[i]];
            assert(views[list@[i as int] as int] == f@);
            crate::json::set_member(
                &mut dead,
                crate::text::decimal_text(f.id),
                crate::json::flag(f.is_dead()),
            );
            i += 1;
        }
        t += 1;
    }
    crate::json::object(dead)
}

/// An empty object for each of the first `n` farmers.
pub open spec fn empty_logs(farmers: Seq<i64>, n: nat) -> Map<Seq<char>, Tree>
    decreases n,
{
    if n == 0 {
        crate::json::no_entries()
    } else {
        empty_logs(farmers, (n - 1) as nat).insert(
            crate::text::decimal(farmers[n - 1] as int),
            Tree::Object(crate::json::no_entries()),
        )
    }
}

/// The report of a fight.
pub open spec fn outcome_tree(
    leeks: Seq<Tree>,
    map: Tree,
    actions: Seq<Tree>,
    dead: Map<Seq<char>, Tree>,
    ops: Map<Seq<char>, Tree>,
    logs: Map<Seq<char>, Tree>,
    winner: int,
    duration: int,
) -> Tree {
    Tree::Object(
        crate::json::no_entries()
            .insert(
                "fight"@,
                Tree::Object(
                    crate::json::no_entries()
                        .insert("leeks"@, Tree::Array(leeks))
                        .insert("map"@, map)
                        .insert("actions"@, Tree::Array(actions))
                        .insert("dead"@, Tree::Object(dead))
                        .insert("ops"@, Tree::Object(ops)),
                ),
            )
            .insert("logs"@, Tree::Object(logs))
            .insert("winner"@, Tree::Int(winner))
            .insert("duration"@, Tree::Int(duration))
            .insert("analyze_time"@, Tree::Int(0))
            .insert("compilation_time"@, Tree::Int(0))
            .insert("execution_time"@, Tree::Int(0)),
    )
}

/// The messages of a farmer by the event before them.
pub open spec fn event_entries(events: Map<usize, Seq<Tree>>) -> Map<Seq<char>, Tree> {
    Map::new(
        |k: Seq<char>|
            exists|e: usize| #[trigger] events.contains_key(e) && k == crate::text::decimal(e as int),
        |k: Seq<char>|
            Tree::Array(
                events[choose|e: usize| #[trigger]
                    events.contains_key(e) && k == crate::text::decimal(e as int)],
            ),
    )
}

/// The messages of each of the first `n` farmers.
pub open spec fn farmer_entries(
    farmers: Seq<i64>,
    logs: Map<i64, Map<usize, Seq<Tree>>>,
    n: nat,
) -> Map<Seq<char>, Tree>
    decreases n,
{
    if n == 0 {
        crate::json::no_entries()
    } else {
        farmer_entries(farmers, logs, (n - 1) as nat).insert(
            crate::text::decimal(farmers[n - 1] as int),
            Tree::Object(
                if logs.contains_key(farmers[n - 1]) {
                    event_entries(logs[farmers[n - 1]])
                } else {
                    crate::json::no_entries()
                },
            ),
        )
    }
}

/// Puts the parts of the report of a fight together.
fn assemble(
    leeks: &[serde_json::Value],
    map: &GameMap,
    log: &ActionLog,
    teams: &[Team],
    fighters: &[Fighter],
    logs: serde_json::Map<String, serde_json::Value>,
    winner: i32,
    duration: i32,
) -> (v: serde_json::Value)
    requires
        map.wf(),
        forall|t: int|
            0 <= t < teams@.len() ==> crate::fighter::all_below(
                (#[trigger] teams@[t]).fighters@,
                fighters@.len() as int,
            ),
    ensures
        crate::json::contents(v) == outcome_tree(
            crate::json::all_contents(leeks@),
            map_tree(map@),
            log@.actions,
            dead_entries(team_views(teams@), crate::fighter::views(fighters@), teams@.len()),
            log@.ops,
            crate::json::members(logs),
            winner as int,
            duration as int,
        ),
{
    let mut items: Vec<serde_json::Value> = crate::json::no_items();
    let mut i: usize = 0;
    while i < leeks.len()
        invariant
            i <= leeks@.len(),
            crate::json::all_contents(items@) == crate::json::all_contents(leeks@).take(i as int),
        decreases leeks.len() - i,
    {
        crate::json::push_item(&mut items, crate::json::copy(&leeks[i]));
        i += 1;
        assert(crate::json::all_contents(items@) =~= crate::json::all_contents(leeks@).take(
            i as int,
        ));
    }
    assert(crate::json::all_contents(leeks@).take(i as int) =~= crate::json::all_contents(leeks@));
    let mut fight = crate::json::no_members();
    crate::json::put(&mut fight, "leeks", crate::json::array(items));
    crate::json::put(&mut fight, "map", map_json(map));
    crate::json::put(&mut fight, "actions", log.to_json());
    crate::json::put(&mut fight, "dead", dead_report(teams, fighters));
    crate::json::put(&mut fight, "ops", crate::json::object(log.ops_copy()));
    let mut m = crate::json::no_members();
    crate::json::put(&mut m, "fight", crate::json::object(fight));
    crate::json::put(&mut m, "logs", crate::json::object(logs));
    crate::json::put(&mut m, "winner", crate::json::number(winner as i64));
    crate::json::put(&mut m, "duration", crate::json::number(duration as i64));
    crate::json::put(&mut m, "analyze_time", crate::json::number(0));
    crate::json::put(&mut m, "compilation_time", crate::json::number(0));
    crate::json::put(&mut m, "execution_time", crate::json::number(0));
    crate::json::object(m)
}

/// The report of a fight, with an empty log for each farmer.
#[must_use]
pub fn build_outcome(
    leeks: &[serde_json::Value],
    map: &GameMap,
    log: &ActionLog,
    teams: &[Team],
    fighters: &[Fighter],
    farmers: &[i64],
    winner: i32,
    duration: i32,
) -> (v: serde_json::Value)
    requires
        map.wf(),
        forall|t: int|
            0 <= t < teams@.len() ==> crate::fighter::all_below(
                (#[trigger] teams@[t]).fighters@,
                fighters@.len() as int,
            ),
    ensures
        crate::json::contents(v) == outcome_tree(
            crate::json::all_contents(leeks@),
            map_tree(map@),
            log@.actions,
            dead_entries(team_views(teams@), crate::fighter::views(fighters@), teams@.len()),
            log@.ops,
            empty_logs(farmers@, farmers@.len()),
            winner as int,
            duration as int,
        ),
{
    let mut logs = crate::json::no_members();
    let mut j: usize = 0;
    while j < farmers.len()
        invariant
            j <= farmers@.len(),
            crate::json::members(logs) == empty_logs(farmers@, j as nat),
        decreases farmers.len() - j,
    {
        crate::json::set_member(
            &mut logs,
            crate::text::decimal_text(farmers[j]),
            crate::json::object(crate::json::no_members()),
        );
        j += 1;
    }
    assemble(leeks, map, log, teams, fighters, logs, winner, duration)
}

/// The messages of a farmer as an object.
fn event_members(events: &BTreeMap<usize, Vec<serde_json::Value>>) -> (m: serde_json::Map<
    String,
    serde_json::Value,
>)
    ensures
        crate::json::members(m) == event_entries(
            events@.map_values(|v: Vec<serde_json::Value>| crate::json::all_contents(v@)),
        ),
{
    let ghost goal = events@.map_values(
        |v: Vec<serde_json::Value>| crate::json::all_contents(v@),
    );
    let mut m = crate::json::no_members();
    let entries = events.iter();
    let ghost all = entries.remaining();
    for kv in it: entries
        invariant
            it.seq() == all,
            all.no_duplicates(),
            forall|i: int|
                #![trigger all[i]]
                0 <= i < all.len() ==> events@.contains_key(*all[i].0) && events@[*all[i].0]
                    == *all[i].1,
            forall|k: Seq<char>| #[trigger]
                crate::json::members(m).contains_key(k) <==> exists|i: int|
                    0 <= i < it.index() && k == crate::text::decimal(*(#[trigger] all[i]).0 as int),
            forall|i: int|
                0 <= i < it.index() ==> crate::json::members(m)[crate::text::decimal(
                    *(#[trigger] all[i]).0 as int,
                )] == Tree::Array(crate::json::all_contents(all[i].1@)),
    {
        let ghost n = it.index();
        let ghost before = crate::json::members(m);
        let list: &Vec<serde_json::Value> = kv.1;
        let mut items: Vec<serde_json::Value> = crate::json::no_items();
        let mut i: usize = 0;
        while i < list.len()
            invariant
                i <= list@.len(),
                crate::json::all_contents(items@) == crate::json::all_contents(list@).take(
                    i as int,
                ),
            decreases list.len() - i,
        {
            crate::json::push_item(&mut items, crate::json::copy(&list[i]));
            i += 1;
            assert(crate::json::all_contents(items@) =~= crate::json::all_contents(list@).take(
                i as int,
            ));
        }
        assert(crate::json::all_contents(list@).take(i as int) =~= crate::json::all_contents(
            list@,
        ));
        crate::json::set_member(
            &mut m,
            crate::text::index_text(*kv.0),
            crate::json::array(items),
        );
        proof {
            let key = crate::text::decimal(*all[n].0 as int);
            assert forall|k: Seq<char>| #[trigger]
                crate::json::members(m).contains_key(k) <==> exists|i: int|
                    0 <= i < n + 1 && k == crate::text::decimal(*(#[trigger] all[i]).0 as int) by {
                if before.contains_key(k) {
                    let i = choose|i: int|
                        0 <= i < n && k == crate::text::decimal(*(#[trigger] all[i]).0 as int);
                    assert(k == crate::text::decimal(*all[i].0 as int));
                }
                if k == key {
                    assert(k == crate::text::decimal(*all[n].0 as int));
                }
            }
            assert forall|i: int| 0 <= i < n + 1 implies crate::json::members(
                m,
            )[crate::text::decimal(*(#[trigger] all[i]).0 as int)] == Tree::Array(
                crate::json::all_contents(all[i].1@),
            ) by {
                if i < n && crate::text::decimal(*all[i].0 as int) == key {
                    crate::text::lemma_decimal_injective(*all[i].0 as int, *all[n].0 as int);
                    assert(all[i].1 == all[n].1);
                }
            }
        }
    }
    proof {
        let entries_goal = event_entries(goal);
        assert forall|k: Seq<char>| #[trigger]
            crate::json::members(m).contains_key(k) == entries_goal.contains_key(k) by {
            if crate::json::members(m).contains_key(k) {
                let i = choose|i: int|
                    0 <= i < all.len() && k == crate::text::decimal(*(#[trigger] all[i]).0 as int);
                assert(goal.contains_key(*all[i].0));
            }
            if entries_goal.contains_key(k) {
                let e = choose|e: usize| #[trigger]
                    goal.contains_key(e) && k == crate::text::decimal(e as int);
                assert(events@.contains_key(e));
                assert(all.contains((&e, &events@[e])));
                let i = choose|i: int| 0 <= i < all.len() && all[i] == (&e, &events@[e]);
                assert(k == crate::text::decimal(*all[i].0 as int));
            }
        }
        assert forall|k: Seq<char>| entries_goal.contains_key(k) implies #[trigger] entries_goal[k]
            == crate::json::members(m)[k] by {
            assert(crate::json::members(m).contains_key(k));
            let i = choose|i: int|
                0 <= i < all.len() && k == crate::text::decimal(*(#[trigger] all[i]).0 as int);
            let e = choose|e: usize| #[trigger]
                goal.contains_key(e) && k == crate::text::decimal(e as int);
            assert(goal.contains_key(*all[i].0));
            crate::text::lemma_decimal_injective(*all[i].0 as int, e as int);
        }
        assert(crate::json::members(m) =~= entries_goal);
    }
    m
}

/// The report of a fight, with the messages of the farmers.
#[must_use]
pub fn build_report(
    leeks: &[serde_json::Value],
    map: &GameMap,
    log: &ActionLog,
    teams: &[Team],
    fighters: &[Fighter],
    farmers: &[i64],
    farmer_logs: &BTreeMap<i64, BTreeMap<usize, Vec<serde_json::Value>>>,
    winner: i32,
    duration: i32,
) -> (v: serde_json::Value)
    requires
        map.wf(),
        forall|t: int|
            0 <= t < teams@.len() ==> crate::fighter::all_below(
                (#[trigger] teams@[t]).fighters@,
                fighters@.len() as int,
            ),
    ensures
        crate::json::contents(v) == outcome_tree(
            crate::json::all_contents(leeks@),
            map_tree(map@),
            log@.actions,
            dead_entries(team_views(teams@), crate::fighter::views(fighters@), teams@.len()),
            log@.ops,
            farmer_entries(farmers@, crate::world::log_contents(farmer_logs@), farmers@.len()),
            winner as int,
            duration as int,
        ),
{
    let ghost known = crate::world::log_contents(farmer_logs@);
    let mut logs = crate::json::no_members();
    let mut j: usize = 0;
    while j < farmers.len()
        invariant
            known == crate::world::log_contents(farmer_logs@),
            j <= farmers@.len(),
            crate::json::members(logs) == farmer_entries(farmers@, known, j as nat),
        decreases farmers.len() - j,
    {
        let own = match farmer_logs.get(&farmers[j]) {
            Some(events) => event_members(events),
            None => crate::json::no_members(),
        };
        crate::json::set_member(
            &mut logs,
            crate::text::decimal_text(farmers[j]),
            crate::json::object(own),
        );
        j += 1;
    }
    assemble(leeks, map, log, teams, fighters, logs, winner, duration)
}

} // verus!
