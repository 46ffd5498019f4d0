//! Redline: race rules, menus and asset encoding for a planet-circuit racer.
pub mod ai;
pub mod config;
pub mod control;
pub mod countdown;
pub mod game;
pub mod glb;
pub mod helpers;
pub mod lap_callout;
pub mod menu;
pub mod race;
pub mod results;
pub mod trace;
pub mod vehicle;
pub mod planet;
