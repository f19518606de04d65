//! Real-time-strategy world: entities, economy, orders, buildings.

pub mod economy;
pub mod entity;
pub mod placement;
pub mod grid;
pub mod static_nav;
pub mod formation;
pub mod production;
pub mod selection;
pub mod orders;
pub mod collision;
pub mod combat;
pub mod hud;
pub mod world;
pub mod commands;
pub mod pack;
pub mod systems;
pub mod seed;
pub mod state;
pub mod lifecycle;
