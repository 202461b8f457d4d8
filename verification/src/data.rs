//! The catalog: pieces, skills, decorations and the tables built from them.

pub mod armor;
pub mod data_manager;
pub mod deco;
pub mod deco_build;
pub mod deco_combination;
pub mod deco_complete;
pub mod deco_order;
pub mod deco_walk;
pub mod rows;
pub mod skill;
