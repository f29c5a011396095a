//! Server-authoritative core of a tile-grid island-combat simulation.
//!
//! The library holds the verified logic: a chunked spatial occupancy grid per
//! island, an A* path planner driven by pluggable movement rules, and an
//! event-driven combat pipeline (cooldown gating, hit resolution, damage
//! negation, projectiles). Rendering, input and transport live outside and
//! talk to this core through plain values.

pub mod pos;
pub mod tile;
pub mod chunk;
pub mod grid;
pub mod registry;
pub mod timer;
pub mod humanoid;
pub mod kv;
pub mod movement;
pub mod combat;
pub mod damage;
pub mod path;
pub mod projectile;
pub mod enemy;
pub mod inventory;
pub mod attacks;
