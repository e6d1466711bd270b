//! Delivery planning over a street map: shortest routes between points, an
//! order of stops that keeps the tour short, and turn-by-turn commands.
pub mod error;
pub mod frontier;
pub mod geo;
pub mod loader;
pub mod optimizer;
pub mod planner;
pub mod point_router;
pub mod route;
pub mod street_map;
pub mod text;
