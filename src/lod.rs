//! Chunk positions, owners and levels of detail.
use vstd::prelude::*;

verus! {

/// A fixed-size cubic region of the world, in chunk coordinates.
#[derive(Clone, Copy, Debug, PartialEq, Eq, Structural)]
pub struct ChunkPosition {
    pub x: i32,
    pub y: i32,
    pub z: i32,
}

/// An independent subsystem that demands terrain.
#[derive(Clone, Copy, Debug, PartialEq, Eq, Structural)]
pub struct OwnerId {
    pub id: u32,
}

/// A level of detail. A lower index is finer; `Placeholder` stands for
/// content that is requested but not yet there, and is coarser than any index.
#[derive(Clone, Copy, Debug, PartialEq, Eq, Structural)]
pub enum Lod {
    Placeholder,
    LodIndex(u32),
}

/// `a` is at least as fine as `b`.
pub open spec fn finer_or_equal(a: Lod, b: Lod) -> bool {
    match (a, b) {
        (Lod::LodIndex(x), Lod::LodIndex(y)) => x <= y,
        (Lod::LodIndex(_), Lod::Placeholder) => true,
        (Lod::Placeholder, Lod::Placeholder) => true,
        (Lod::Placeholder, Lod::LodIndex(_)) => false,
    }
}

/// `a` is at least as fine as `b`, where no demand at all is the coarsest.
pub open spec fn opt_finer_or_equal(a: Option<Lod>, b: Option<Lod>) -> bool {
    match (a, b) {
        (_, None) => true,
        (None, Some(_)) => false,
        (Some(x), Some(y)) => finer_or_equal(x, y),
    }
}

/// The finer of two optional demands.
pub open spec fn finest(a: Option<Lod>, b: Option<Lod>) -> Option<Lod> {
    if opt_finer_or_equal(a, b) {
        a
    } else {
        b
    }
}

pub proof fn lemma_finer_antisymmetric(a: Lod, b: Lod)
    requires
        finer_or_equal(a, b),
        finer_or_equal(b, a),
    ensures
        a == b,
{
}

pub proof fn lemma_finer_transitive(a: Lod, b: Lod, c: Lod)
    requires
        finer_or_equal(a, b),
        finer_or_equal(b, c),
    ensures
        finer_or_equal(a, c),
{
}

/// Total: of two levels one is at least as fine as the other.
pub proof fn lemma_finer_total(a: Lod, b: Lod)
    ensures
        finer_or_equal(a, b) || finer_or_equal(b, a),
{
}

/// Whether `a` is at least as fine as `b`.
pub fn is_finer_or_equal(a: Lod, b: Lod) -> (r: bool)
    ensures
        r == finer_or_equal(a, b),
{
    match (a, b) {
        (Lod::LodIndex(x), Lod::LodIndex(y)) => x <= y,
        (Lod::LodIndex(_), Lod::Placeholder) => true,
        (Lod::Placeholder, Lod::Placeholder) => true,
        (Lod::Placeholder, Lod::LodIndex(_)) => false,
    }
}

/// The finer of two optional demands.
pub fn finer_of(a: Option<Lod>, b: Option<Lod>) -> (r: Option<Lod>)
    ensures
        r == finest(a, b),
{
    match (a, b) {
        (_, None) => a,
        (None, Some(_)) => b,
        (Some(x), Some(y)) => if is_finer_or_equal(x, y) {
            a
        } else {
            b
        },
    }
}

/// Equality of optional levels.
pub fn same_lod(a: Option<Lod>, b: Option<Lod>) -> (r: bool)
    ensures
        r == (a == b),
{
    match (a, b) {
        (None, None) => true,
        (Some(x), Some(y)) => x == y,
        _ => false,
    }
}

/// Equality of chunk positions.
pub fn same_position(a: ChunkPosition, b: ChunkPosition) -> (r: bool)
    ensures
        r == (a == b),
{
    a.x == b.x && a.y == b.y && a.z == b.z
}

} // verus!
