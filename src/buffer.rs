use vstd::prelude::*;
use crate::point::Point;
use pallas::network::miniprotocols::chainsync::RollbackBuffer;

verus! {

#[verifier::external_type_specification]
#[verifier::external_body]
pub struct ExRollbackBuffer(RollbackBuffer);

/// The points held by a rollback buffer, oldest first.
pub uninterp spec fn buffer_points(b: RollbackBuffer) -> Seq<Option<(u64, Seq<u8>)>>;

/// How a rollback was absorbed by the unconfirmed window.
#[derive(Debug, PartialEq, Eq, Structural)]
pub enum RollbackEffect {
    /// The point was held: everything newer was discarded.
    Handled,
    /// The point was not held: the whole window was discarded.
    OutOfScope,
}

/// Relies on RollbackBuffer::new: the buffer starts empty.
#[verifier::external_body]
pub(crate) fn buffer_new() -> (r: RollbackBuffer)
    ensures
        buffer_points(r) == Seq::<Option<(u64, Seq<u8>)>>::empty(),
{
    RollbackBuffer::new()
}

/// Relies on RollbackBuffer::roll_forward: the point is appended at the back.
#[verifier::external_body]
pub(crate) fn buffer_roll_forward(b: &mut RollbackBuffer, p: Point)
    ensures
        buffer_points(*final(b)) == buffer_points(*old(b)).push(p@),
{
    b.roll_forward(match p {
        Point::Origin => pallas::network::miniprotocols::Point::Origin,
        Point::Specific(s, h) => pallas::network::miniprotocols::Point::Specific(s, h),
    })
}

/// Relies on RollbackBuffer::pop_with_depth: when the buffer holds at least
/// `min_depth` points, all but the newest `min_depth` are drained from the
/// front and returned oldest first; otherwise nothing changes.
#[verifier::external_body]
pub(crate) fn buffer_pop_with_depth(b: &mut RollbackBuffer, min_depth: usize) -> (r: Vec<Point>)
    ensures
        buffer_points(*old(b)).len() >= min_depth ==> {
            let k = buffer_points(*old(b)).len() - min_depth;
            &&& r@.map_values(|p: Point| p@) == buffer_points(*old(b)).take(k)
            &&& buffer_points(*final(b)) == buffer_points(*old(b)).skip(k)
        },
        buffer_points(*old(b)).len() < min_depth ==> {
            &&& r@.len() == 0
            &&& buffer_points(*final(b)) == buffer_points(*old(b))
        },
{
    b.pop_with_depth(min_depth).into_iter().map(|p| match p {
        pallas::network::miniprotocols::Point::Origin => Point::Origin,
        pallas::network::miniprotocols::Point::Specific(s, h) => Point::Specific(s, h),
    }).collect()
}

/// Relies on RollbackBuffer::roll_back: when the point is held, the buffer is
/// cut just after its first occurrence and the rollback is handled; otherwise
/// the buffer is cleared.
#[verifier::external_body]
pub(crate) fn buffer_roll_back(b: &mut RollbackBuffer, p: &Point) -> (r: RollbackEffect)
    ensures
        (r == RollbackEffect::Handled) == buffer_points(*old(b)).contains(p@),
        r == RollbackEffect::Handled ==> exists|i: int|
            0 <= i < buffer_points(*old(b)).len()
            && buffer_points(*old(b))[i] == p@
            && (forall|j: int| 0 <= j < i ==> buffer_points(*old(b))[j] != p@)
            && buffer_points(*final(b)) == buffer_points(*old(b)).take(i + 1),
        r == RollbackEffect::OutOfScope ==> buffer_points(*final(b)).len() == 0,
{
    let wire = match p {
        Point::Origin => pallas::network::miniprotocols::Point::Origin,
        Point::Specific(s, h) => pallas::network::miniprotocols::Point::Specific(*s, h.clone()),
    };
    match b.roll_back(&wire) {
        pallas::network::miniprotocols::chainsync::RollbackEffect::Handled => RollbackEffect::Handled,
        pallas::network::miniprotocols::chainsync::RollbackEffect::OutOfScope => RollbackEffect::OutOfScope,
    }
}

} // verus!
