//! A swarm of robots exploring a bounded grid, collecting resources and
//! reporting to a station that reconciles everyone's view of the world.
//!
//! Each executable function carries a contract over the mathematical models
//! defined beside it, and Verus proves the function against it. The one
//! exception are the two functions that format the station's log lines:
//! what they return is stated, not proved.
//!
//! - [`map`]: the grid and diffs of cell mutations.
//! - [`known`]: maps and sets keyed by coordinates.
//! - [`pathfinder`]: how a robot picks its next cell.
//! - [`robot`]: the robot, its goal machine, and the actor that runs it.
//! - [`station`]: the merge of reports and the spawn policy.
//! - [`coordinator`]: the roll of robots, bulk pickups and occupancy.
//! - [`app`]: the state behind the operator's screen.

pub mod app;
pub mod coordinator;
pub mod known;
pub mod map;
pub mod pathfinder;
pub mod robot;
pub mod station;

pub use known::{CoordSet, KnownMap};
pub use map::{GridView, MapDiff, Tile, WorldMap};
