//! Plain records of the entity templates that spawn intents name.
use vstd::prelude::*;

verus! {

/// The attribute scores of a creature template; a missing score takes the
/// template system's default.
#[derive(PartialEq, Eq, Structural, Copy, Clone, Debug)]
pub struct MobAttributes {
    pub might: Option<i32>,
    pub fitness: Option<i32>,
    pub quickness: Option<i32>,
    pub intelligence: Option<i32>,
}

/// A light that a creature template carries: its range in cells and its
/// colour as written in the template (`#rrggbb`).
pub struct MobLight {
    pub range: i32,
    pub color: String,
}

} // verus!
