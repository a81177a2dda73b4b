//! A verified leek-wars fight engine: the board, the fight generator's random
//! stream, the turn order, the fight state machine and its report.

pub mod actions;
pub mod aging;
pub mod args;
pub mod assault;
pub mod attack;
pub mod blows;
pub mod calls;
pub mod cast;
pub mod catalog;
pub mod chips;
pub mod components;
pub mod course;
pub mod effects;
pub mod entity;
pub mod fighter;
pub mod fight;
pub mod flee;
pub mod flow;
pub mod formulas;
pub mod game;
pub mod grid;
pub mod harm;
pub mod impact;
pub mod items;
pub mod json;
pub mod lists;
pub mod map;
pub mod mapgen;
pub mod mask;
pub mod measure;
pub mod opening;
pub mod order;
pub mod outcome;
pub mod path;
pub mod might;
pub mod number;
pub mod power;
pub mod queries;
pub mod quest;
pub mod reduce;
pub mod rng;
pub mod route;
pub mod rounds;
pub mod rules;
pub mod runner;
pub mod shots;
pub mod sight;
pub mod slide;
pub mod strike;
pub mod summon;
pub mod text;
pub mod turns;
pub mod walk;
pub mod weapons;
pub mod world;
