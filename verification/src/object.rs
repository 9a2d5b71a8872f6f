//! The particle record.

use vstd::prelude::*;
pub use crate::scanner::FindScanner;

verus! {

/// One simulated agent.
///
/// Coordinates and velocities are carried as IEEE 754 binary64 bit patterns:
/// the verified code stores, copies and transmits them, and never does
/// arithmetic on them.
#[derive(Clone, Copy, Debug, PartialEq, Eq)]
pub struct Object {
    pub pos: [u64; 2],
    pub velo: [u64; 2],
    pub color: [u8; 3],
}

impl Object {
    /// The record whose fields are all zero: at the origin, at rest, black.
    pub open spec fn zero() -> Object {
        Object { pos: [0u64, 0u64], velo: [0u64, 0u64], color: [0u8, 0u8, 0u8] }
    }

    /// A particle at rest at `pos`.
    pub fn new(pos: [u64; 2], color: [u8; 3]) -> (obj: Object)
        ensures
            obj == (Object { pos, velo: [0u64, 0u64], color }),
    {
        Object { pos, velo: [0, 0], color }
    }
}

impl Default for Object {
    fn default() -> (obj: Object)
        ensures
            obj == Object::zero(),
    {
        Object { pos: [0, 0], velo: [0, 0], color: [0, 0, 0] }
    }
}

/// Two records that agree in every coordinate and colour byte are the same
/// record.
pub proof fn lemma_object_ext(a: Object, b: Object)
    requires
        a.pos[0] == b.pos[0],
        a.pos[1] == b.pos[1],
        a.velo[0] == b.velo[0],
        a.velo[1] == b.velo[1],
        a.color[0] == b.color[0],
        a.color[1] == b.color[1],
        a.color[2] == b.color[2],
    ensures
        a == b,
{
    assert(a.pos =~= b.pos);
    assert(a.velo =~= b.velo);
    assert(a.color =~= b.color);
}

} // verus!
