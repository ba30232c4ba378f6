//! Routing a colony of ants through a farm of rooms and tubes.
//!
//! The farm description is parsed line by line into a [`map::Farm`]; the ants are routed one
//! after another by a time-aware breadth-first search, or along a quickest routing found by a
//! search over the rooms of all ants at once; and the resulting schedule is turned into the
//! per-turn move lines.

pub mod map;
pub mod moves;
pub mod quickest;
pub mod text;
pub mod schedule;
pub mod solver;
