//! Skill-set build search for a hunting game: equipment pieces, decoration
//! tables, socket promotion and the branch-and-bound walk over builds.

pub mod calc;
pub mod counter;
pub mod data;
pub mod dominance;
pub mod easing;
pub mod full_equipments;
pub mod laws;
pub mod placing;
pub mod slots;
pub mod solver;
pub mod solver_bag;
pub mod solver_eval;
pub mod solver_order;
pub mod solver_parts;
pub mod solver_pools;
pub mod solver_result;
pub mod str_map;
pub mod text;
pub mod worn;
