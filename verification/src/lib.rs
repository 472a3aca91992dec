//! Verified core of a real-time strategy game server: grids, fixed-point
//! angles, line tracing, id pools and the byte formats the server speaks.

pub mod pathing;
pub mod libs;
pub mod data;
pub mod netcom;
pub mod bytegrid;
pub mod vis_set;
pub mod jps;
pub mod units;
pub mod basic_weapon;
pub mod setup_game;
