//! Preflop game model for a six-seat no-limit hold'em table: bet sizing
//! presets, the betting state machine and how hands settle, the blueprint
//! store and its binary format, the walks that find the chart spots,
//! matchups and every decision node of the game tree, and the names and
//! labels used when charts are read out of a blueprint.

pub mod text;
pub mod action;
pub mod config;
pub mod state;
pub mod laws;
pub mod codec;
pub mod blueprint;
pub mod roundtrip;
pub mod labels;
pub mod fraction;
pub mod filename;
pub mod naming;
pub mod pushfold;
pub mod spots;
pub mod tree;
pub mod lines;
pub mod charts;
pub mod matchups;
pub mod chart_laws;
pub mod sizes;
pub mod positions;
pub mod showdown;
pub mod solve_setup;
pub mod tax_mode;
