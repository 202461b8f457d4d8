//! Pieces as the search sees them, and their scores.

pub mod armor;
pub mod calc_equipment;
pub mod deco;
pub mod equipment;
pub mod skill;
pub mod talisman;
