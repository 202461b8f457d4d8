//! Skills.

use crate::str_map::StrMap;
use vstd::prelude::*;

verus! {

/// The number of socket sizes: sockets and decorations have a size in
/// `1..=MAX_SLOT_LEVEL`.
pub const MAX_SLOT_LEVEL: usize = 4;

/// A named ability. A character holds it at a level from 1 to `max_level`.
#[derive(Debug)]
pub struct Skill {
    pub id: String,
    pub max_level: i32,
    /// Display names by locale.
    pub names: StrMap<String>,
    /// Descriptions by locale.
    pub texts: StrMap<String>,
}

} // verus!
