use vstd::prelude::*;

verus! {

/// A position on the chain: the origin, or a slot together with a block hash.
#[derive(Debug)]
pub enum Point {
    Origin,
    Specific(u64, Vec<u8>),
}

impl View for Point {
    type V = Option<(u64, Seq<u8>)>;

    open spec fn view(&self) -> Option<(u64, Seq<u8>)> {
        match self {
            Point::Origin => None,
            Point::Specific(slot, hash) => Some((*slot, hash@)),
        }
    }
}

/// The slot of a point as a model value, the origin counting as slot zero.
pub open spec fn slot_of(p: Option<(u64, Seq<u8>)>) -> u64 {
    match p {
        None => 0,
        Some(x) => x.0,
    }
}

/// A copy of a byte string.
pub fn copy_bytes(b: &Vec<u8>) -> (r: Vec<u8>)
    ensures
        r@ == b@,
{
    let mut r: Vec<u8> = Vec::new();
    let mut i: usize = 0;
    while i < b.len()
        invariant
            i <= b.len(),
            r@ == b@.subrange(0, i as int),
        decreases b.len() - i,
    {
        r.push(b[i]);
        i = i + 1;
        assert(r@ =~= b@.subrange(0, i as int));
    }
    assert(r@ =~= b@);
    r
}

/// Whether two byte strings are equal.
pub fn bytes_equal(a: &Vec<u8>, b: &Vec<u8>) -> (r: bool)
    ensures
        r == (a@ == b@),
{
    if a.len() != b.len() {
        return false;
    }
    let mut i: usize = 0;
    while i < a.len()
        invariant
            a.len() == b.len(),
            i <= a.len(),
            forall|j: int| 0 <= j < i ==> a@[j] == b@[j],
        decreases a.len() - i,
    {
        if a[i] != b[i] {
            return false;
        }
        i = i + 1;
    }
    assert(a@ =~= b@);
    true
}

impl Point {
    /// The slot of the point; the origin is slot zero.
    pub fn slot_or_default(&self) -> (r: u64)
        ensures
            r == slot_of(self@),
    {
        match self {
            Point::Origin => 0,
            Point::Specific(slot, _) => *slot,
        }
    }

    /// An independent copy of the point.
    pub fn duplicate(&self) -> (r: Point)
        ensures
            r@ == self@,
    {
        match self {
            Point::Origin => Point::Origin,
            Point::Specific(slot, hash) => Point::Specific(*slot, copy_bytes(hash)),
        }
    }

    /// Whether two points denote the same chain position.
    pub fn same_as(&self, other: &Point) -> (r: bool)
        ensures
            r == (self@ == other@),
    {
        match (self, other) {
            (Point::Origin, Point::Origin) => true,
            (Point::Specific(s1, h1), Point::Specific(s2, h2)) => *s1 == *s2 && bytes_equal(h1, h2),
            _ => false,
        }
    }
}

/// What the observer hands downstream, in order.
#[derive(Debug)]
pub enum ChainEvent {
    /// The raw bytes of a block that reached the confirmation depth.
    Block(Vec<u8>),
    /// A rollback that reaches further back than the unconfirmed window.
    Rollback(Point),
    /// The peer's chain tip (block height) after a batch that did not stop the session.
    Tip(u64),
}

/// The model of an emitted event.
pub enum EventModel {
    Block(Seq<u8>),
    Rollback(Option<(u64, Seq<u8>)>),
    Tip(u64),
}

impl View for ChainEvent {
    type V = EventModel;

    open spec fn view(&self) -> EventModel {
        match self {
            ChainEvent::Block(b) => EventModel::Block(b@),
            ChainEvent::Rollback(p) => EventModel::Rollback(p@),
            ChainEvent::Tip(t) => EventModel::Tip(*t),
        }
    }
}

/// Failures that retrying cannot fix.
#[derive(Debug, PartialEq, Eq, Structural)]
pub enum FatalCause {
    HandshakeRefused,
    NoIntersection,
    BlockDecode,
    /// A rolled-forward block whose slot does not follow the newest known slot.
    BlockOutOfOrder,
    /// The downstream consumer refused an event.
    Downstream,
}

/// The outcome of a failed attempt: transient transport trouble, or a fatal
/// protocol failure.
#[derive(Debug)]
pub enum AttemptError {
    Recoverable(String),
    Other(FatalCause),
}

} // verus!
