//! Engine for a grid-based snow-and-presents pushing puzzle: level parsing,
//! move resolution with push chains and ice momentum, undo history, and
//! victory evaluation.

pub mod level;
pub mod moves;
pub mod text;
pub mod repository;
pub mod world;
pub mod terminal;
pub mod session;
pub mod instance;
pub mod campaign_menu;
pub mod kmath;
