use vstd::prelude::*;
use crate::point::{Point, ChainEvent, EventModel, FatalCause, AttemptError, slot_of, bytes_equal};
use crate::buffer::{
    RollbackEffect, buffer_points, buffer_new, buffer_roll_forward, buffer_pop_with_depth,
    buffer_roll_back,
};
use pallas::network::miniprotocols::chainsync::RollbackBuffer;
use pallas::ledger::traverse::{MultiEraBlock, MultiEraHeader};

verus! {

#[verifier::external_type_specification]
#[verifier::external_body]
pub struct ExDecodeError(pallas::ledger::traverse::Error);

/// Where a block header places its block: an absolute slot, or, for the
/// Byron era, an epoch and a slot within it (an epoch-boundary block opens its
/// epoch).
#[derive(Debug, Clone, Copy, PartialEq, Eq, Structural)]
pub enum HeaderSlot {
    Absolute(u64),
    Boundary(u64),
    Byron(u64, u64),
}

/// Length of a Byron epoch, in seconds (five days).
pub const BYRON_EPOCH_SECONDS: u64 = 432000;

/// Length of a Byron slot, in seconds.
pub const BYRON_SLOT_SECONDS: u64 = 20;

/// The absolute slot of a Byron epoch and in-epoch slot, where it fits in a
/// `u64` (the epoch's length in seconds, over the slot length, plus the slot).
pub open spec fn byron_absolute_slot(epoch: u64, slot: u64) -> Option<u64> {
    let secs = epoch * BYRON_EPOCH_SECONDS;
    if secs > u64::MAX {
        None
    } else if secs / (BYRON_SLOT_SECONDS as int) + slot > u64::MAX {
        None
    } else {
        Some((secs / (BYRON_SLOT_SECONDS as int) + slot) as u64)
    }
}

/// The absolute slot that a header's slot fields denote, where it fits in a `u64`.
pub open spec fn header_absolute_slot(h: HeaderSlot) -> Option<u64> {
    match h {
        HeaderSlot::Absolute(s) => Some(s),
        HeaderSlot::Boundary(e) => byron_absolute_slot(e, 0),
        HeaderSlot::Byron(e, s) => byron_absolute_slot(e, s),
    }
}

/// Computes `header_absolute_slot` with checked arithmetic.
pub fn absolute_slot(h: HeaderSlot) -> (r: Option<u64>)
    ensures
        r == header_absolute_slot(h),
{
    let (epoch, slot) = match h {
        HeaderSlot::Absolute(s) => return Some(s),
        HeaderSlot::Boundary(e) => (e, 0),
        HeaderSlot::Byron(e, s) => (e, s),
    };
    match epoch.checked_mul(BYRON_EPOCH_SECONDS) {
        None => None,
        Some(secs) => (secs / BYRON_SLOT_SECONDS).checked_add(slot),
    }
}

/// The slot fields and the hash of the header of a block decoded from its raw
/// bytes, or `None` where the bytes are not a block.
pub uninterp spec fn decoded_header(b: Seq<u8>) -> Option<(HeaderSlot, Seq<u8>)>;

/// The chain point of a block given by its raw bytes, or `None` where the
/// bytes are not a block or its slot does not fit in a `u64`.
pub open spec fn block_point(b: Seq<u8>) -> Option<(u64, Seq<u8>)> {
    match decoded_header(b) {
        None => None,
        Some((h, hash)) => match header_absolute_slot(h) {
            None => None,
            Some(s) => Some((s, hash)),
        },
    }
}

/// Relies on MultiEraBlock::decode, on the slot fields of the decoded block's
/// header, and on MultiEraBlock::hash.
#[verifier::external_body]
fn decode_block_header(bytes: &Vec<u8>) -> (r: Result<(HeaderSlot, Vec<u8>), pallas::ledger::traverse::Error>)
    ensures
        match r {
            Ok(x) => decoded_header(bytes@) == Some((x.0, x.1@)),
            Err(_) => decoded_header(bytes@) is None,
        },
{
    MultiEraBlock::decode(bytes).map(|b| (match b.header() {
        MultiEraHeader::EpochBoundary(x) => HeaderSlot::Boundary(x.consensus_data.epoch_id),
        MultiEraHeader::Byron(x) => HeaderSlot::Byron(x.consensus_data.0.epoch, x.consensus_data.0.slot),
        MultiEraHeader::AlonzoCompatible(x) => HeaderSlot::Absolute(x.header_body.slot),
        MultiEraHeader::Babbage(x) => HeaderSlot::Absolute(x.header_body.slot),
    }, b.hash().to_vec()))
}

/// The model of a held block: its chain point and its raw bytes.
pub type BlockModel = (Option<(u64, Seq<u8>)>, Seq<u8>);

/// A block held until it is confirmed or orphaned.
#[derive(Debug)]
pub struct StoredBlock {
    pub point: Point,
    pub bytes: Vec<u8>,
}

impl View for StoredBlock {
    type V = BlockModel;

    open spec fn view(&self) -> BlockModel {
        (self.point@, self.bytes@)
    }
}

/// A condition that stops the session after a given confirmed block.
#[derive(Debug, Clone)]
pub struct FinalizePolicy {
    /// Stop once the block with this hash is confirmed.
    pub until_hash: Option<Vec<u8>>,
    /// Stop once this many blocks have been confirmed.
    pub max_block_quantity: Option<u64>,
}

/// Whether the policy asks to stop after confirming the block at `p`, which
/// made `count` confirmed blocks.
pub open spec fn finalize_reached(policy: Option<FinalizePolicy>, p: Option<(u64, Seq<u8>)>, count: u64) -> bool {
    match policy {
        None => false,
        Some(f) => {
            let by_hash = match (f.until_hash, p) {
                (Some(h), Some(q)) => q.1 == h@,
                _ => false,
            };
            let by_count = match f.max_block_quantity {
                Some(m) => count >= m,
                None => false,
            };
            by_hash || by_count
        },
    }
}

/// How the session goes on after a message.
#[derive(Debug, PartialEq, Eq, Structural)]
pub enum Continuation {
    /// Ask the peer for the next message.
    Proceed,
    /// Stop the session cleanly.
    DropOut,
    /// The peer has nothing new yet: wait for the message it must send.
    AwaitReply,
}

/// What one message produced: the events to hand downstream, in order, and how
/// the session goes on.
#[derive(Debug)]
pub struct Step {
    pub events: Vec<ChainEvent>,
    pub next: Continuation,
}

/// A message of the chain-follow protocol.
#[derive(Debug)]
pub enum ChainMessage {
    /// A new block (raw bytes) and the peer's tip height.
    RollForward(Vec<u8>, u64),
    /// The chain went back to this point.
    RollBackward(Point),
    /// The peer has nothing new for now.
    Await,
}

/// Number of the `len` oldest points that have at least `d` newer points.
pub open spec fn ready_count(len: nat, d: nat) -> nat {
    if len >= d { (len - d) as nat } else { 0 }
}

/// The confirmed-block counter after `n` more confirmations, saturating.
pub open spec fn count_after(c0: u64, n: nat) -> u64 {
    if c0 + n <= u64::MAX { (c0 + n) as u64 } else { u64::MAX }
}

/// The first index in `i..k` at which the finalize policy is met, confirming
/// `all` in order from a counter at `c0`.
pub open spec fn first_stop(policy: Option<FinalizePolicy>, all: Seq<BlockModel>, k: nat, c0: u64, i: nat) -> Option<nat>
    decreases k - i,
{
    if i >= k {
        None
    } else if finalize_reached(policy, all[i as int].0, count_after(c0, (i + 1) as nat)) {
        Some(i)
    } else {
        first_stop(policy, all, k, c0, (i + 1) as nat)
    }
}

/// How many of the `k` ready blocks are emitted before the policy stops the session.
pub open spec fn emitted_count(stop: Option<nat>, k: nat) -> nat {
    match stop {
        Some(j) => j + 1,
        None => k,
    }
}

/// The events of one roll-forward: the first `n` blocks of `all`, then the tip
/// unless the session stops.
pub open spec fn forward_events(all: Seq<BlockModel>, n: nat, stopped: bool, tip: u64) -> Seq<EventModel> {
    let blocks = Seq::new(n, |i: int| EventModel::Block(all[i].1));
    if stopped { blocks } else { blocks.push(EventModel::Tip(tip)) }
}

/// The depth of the `i`-th block of `s`: how many newer blocks follow it.
pub open spec fn depth_in(s: Seq<BlockModel>, i: int) -> int {
    s.len() - 1 - i
}

pub open spec fn strictly_increasing_slots(s: Seq<BlockModel>) -> bool {
    forall|i: int, j: int| 0 <= i < j < s.len() ==> slot_of(s[i].0) < slot_of(s[j].0)
}

pub open spec fn events_of(s: Seq<ChainEvent>) -> Seq<EventModel> {
    s.map_values(|e: ChainEvent| e@)
}

/// What a roll-forward to the block `b` (point and bytes), with the peer's tip
/// at `tip`, does to the observer `pre`, leaving `post` and returning `r`.
pub open spec fn forward_outcome(
    pre: ChainObserver,
    post: ChainObserver,
    b: BlockModel,
    tip: u64,
    r: Result<Step, AttemptError>,
) -> bool {
    let all = pre.held().push(b);
    let k = ready_count(all.len(), pre.depth());
    let stop = first_stop(pre.policy(), all, k, pre.confirmed(), 0);
    let n = emitted_count(stop, k);
    if pre.newest() is Some && slot_of(b.0) <= pre.newest()->Some_0 {
        &&& r == Err::<Step, AttemptError>(AttemptError::Other(FatalCause::BlockOutOfOrder))
        &&& post == pre
    } else {
        &&& r is Ok
        &&& r->Ok_0.next == (if (stop is Some) { Continuation::DropOut } else { Continuation::Proceed })
        &&& events_of(r->Ok_0.events@) == forward_events(all, n, stop is Some, tip)
        &&& post.held() == all.skip(k as int)
        &&& post.confirmed() == count_after(pre.confirmed(), n)
        &&& post.newest() == Some(slot_of(b.0))
        // every confirmed block had at least the configured depth of newer blocks
        &&& forall|i: int| 0 <= i < n ==> #[trigger] depth_in(all, i) >= pre.depth()
        // confirmed blocks come in strictly increasing slot order, after the
        // ones confirmed before
        &&& strictly_increasing_slots(all.take(n as int))
        &&& pre.last_confirmed_slot() is Some ==> forall|i: int|
            0 <= i < n ==> pre.last_confirmed_slot()->Some_0 < slot_of(#[trigger] all[i].0)
        &&& post.last_confirmed_slot() == (if n > 0 { Some(slot_of(all[n - 1].0)) } else { pre.last_confirmed_slot() })
    }
}

/// The blocks that a roll-forward to `b` confirms on the observer `pre`, oldest first.
pub open spec fn forward_confirmed(pre: ChainObserver, b: BlockModel) -> Seq<BlockModel> {
    let all = pre.held().push(b);
    let k = ready_count(all.len(), pre.depth());
    all.take(emitted_count(first_stop(pre.policy(), all, k, pre.confirmed(), 0), k) as int)
}

/// What a rollback to `p` does to the observer `pre`, leaving `post`, with the
/// effect and the events `r`.
pub open spec fn rollback_outcome(
    pre: ChainObserver,
    post: ChainObserver,
    p: Option<(u64, Seq<u8>)>,
    r: (RollbackEffect, Seq<EventModel>),
) -> bool {
    let s = pre.held();
    let held = s.map_values(|b: BlockModel| b.0).contains(p);
    &&& post.depth() == pre.depth()
    &&& post.policy() == pre.policy()
    &&& post.confirmed() == pre.confirmed()
    &&& (r.0 == RollbackEffect::Handled) == held
    &&& held ==> {
        &&& exists|i: int| 0 <= i < s.len() && s[i].0 == p && post.held() == s.take(i + 1)
        &&& forall|i: int| 0 <= i < post.held().len() ==> slot_of((#[trigger] post.held()[i]).0) <= slot_of(p)
        &&& r.1.len() == 0
        &&& post.newest() == Some(slot_of(p))
        &&& post.last_confirmed_slot() == pre.last_confirmed_slot()
    }
    &&& !held ==> {
        &&& post.held().len() == 0
        &&& r.1 == seq![EventModel::Rollback(p)]
        &&& post.newest() == (match p { Some(q) => Some(q.0), None => None::<u64> })
        &&& post.last_confirmed_slot() is None
    }
}

/// Tracks the unconfirmed tail of the chain and the blocks that belong to it.
pub struct ChainObserver {
    buffer: RollbackBuffer,
    blocks: Vec<StoredBlock>,
    min_depth: usize,
    finalize: Option<FinalizePolicy>,
    block_count: u64,
    newest_slot: Option<u64>,
    last_confirmed: Ghost<Option<u64>>,
}

impl ChainObserver {
    /// The blocks held, oldest first.
    pub closed spec fn held(&self) -> Seq<BlockModel> {
        self.blocks@.map_values(|b: StoredBlock| b@)
    }

    /// The points of the unconfirmed window, oldest first.
    pub closed spec fn window(&self) -> Seq<Option<(u64, Seq<u8>)>> {
        buffer_points(self.buffer)
    }

    pub closed spec fn depth(&self) -> nat {
        self.min_depth as nat
    }

    pub closed spec fn policy(&self) -> Option<FinalizePolicy> {
        self.finalize
    }

    pub closed spec fn confirmed(&self) -> u64 {
        self.block_count
    }

    /// The slot that a new block must exceed, if any.
    pub closed spec fn newest(&self) -> Option<u64> {
        self.newest_slot
    }

    /// The slot of the last confirmed block since the last rollback that
    /// reached beyond the window.
    pub closed spec fn last_confirmed_slot(&self) -> Option<u64> {
        self.last_confirmed@
    }

    pub closed spec fn wf(&self) -> bool {
        let s = self.held();
        &&& self.window() == s.map_values(|b: BlockModel| b.0)
        &&& forall|i: int| 0 <= i < s.len() ==> (#[trigger] s[i]).0 is Some
        &&& strictly_increasing_slots(s)
        &&& s.len() > 0 ==> self.newest_slot == Some(slot_of(s.last().0))
        &&& self.last_confirmed@ is Some ==> {
            &&& self.newest_slot is Some
            &&& self.last_confirmed@->Some_0 <= self.newest_slot->Some_0
            &&& forall|i: int| 0 <= i < s.len() ==> self.last_confirmed@->Some_0 < slot_of((#[trigger] s[i]).0)
        }
    }

    /// A fresh observer: nothing held, nothing confirmed.
    pub fn new(min_depth: usize, finalize: Option<FinalizePolicy>) -> (r: ChainObserver)
        ensures
            r.wf(),
            r.held().len() == 0,
            r.depth() == min_depth,
            r.policy() == finalize,
            r.confirmed() == 0,
            r.newest() is None,
            r.last_confirmed_slot() is None,
    {
        let r = ChainObserver {
            buffer: buffer_new(),
            blocks: Vec::new(),
            min_depth,
            finalize,
            block_count: 0,
            newest_slot: None,
            last_confirmed: Ghost(None),
        };
        assert(r.held() =~= Seq::<BlockModel>::empty());
        assert(r.window() =~= r.held().map_values(|b: BlockModel| b.0));
        r
    }

    /// Number of confirmed blocks so far.
    pub fn block_count(&self) -> (r: u64)
        ensures
            r == self.confirmed(),
    {
        self.block_count
    }

    /// The slots of the held blocks, oldest first.
    pub fn pending_slots(&self) -> (r: Vec<u64>)
        ensures
            r@ == self.held().map_values(|b: BlockModel| slot_of(b.0)),
    {
        let mut r: Vec<u64> = Vec::new();
        let mut i: usize = 0;
        while i < self.blocks.len()
            invariant
                i <= self.blocks.len(),
                r@ == self.held().map_values(|b: BlockModel| slot_of(b.0)).take(i as int),
            decreases self.blocks.len() - i,
        {
            r.push(self.blocks[i].point.slot_or_default());
            i = i + 1;
            assert(r@ =~= self.held().map_values(|b: BlockModel| slot_of(b.0)).take(i as int));
        }
        assert(r@ =~= self.held().map_values(|b: BlockModel| slot_of(b.0)));
        r
    }

    fn should_finalize(&self, p: &Point) -> (r: bool)
        ensures
            r == finalize_reached(self.finalize, p@, self.block_count),
    {
        match &self.finalize {
            None => false,
            Some(f) => {
                let by_hash = match (&f.until_hash, p) {
                    (Some(h), Point::Specific(_, q)) => bytes_equal(q, h),
                    _ => false,
                };
                let by_count = match f.max_block_quantity {
                    Some(m) => self.block_count >= m,
                    None => false,
                };
                by_hash || by_count
            },
        }
    }

    /// Takes in a decoded block at `slot` with hash `hash`: holds it, confirms
    /// the blocks that reached the configured depth, oldest first, and stops
    /// after the first one that meets the finalize policy.
    ///
    /// The slot must come after the newest one seen (the newest held, else the
    /// last confirmed or rolled back to); otherwise this is the fatal
    /// `BlockOutOfOrder`. This rejects a re-announced point (see
    /// `lemma_held_not_after_newest`). It also rejects a second point at the
    /// same slot: the window then keeps at most one point per slot. Rollbacks
    /// trim the held blocks by slot, and confirmed blocks come out in strictly
    /// increasing slot order. Two held points at one slot would break both.
    pub fn on_decoded_block(&mut self, slot: u64, hash: Vec<u8>, bytes: Vec<u8>, tip: u64) -> (r: Result<Step, AttemptError>)
        requires
            old(self).wf(),
        ensures
            final(self).wf(),
            final(self).depth() == old(self).depth(),
            final(self).policy() == old(self).policy(),
            forward_outcome(*old(self), *final(self), (Some((slot, hash@)), bytes@), tip, r),
    {
        if let Some(n) = self.newest_slot {
            if slot <= n {
                return Err(AttemptError::Other(FatalCause::BlockOutOfOrder));
            }
        }
        let ghost pre = *self;
        let ghost b: BlockModel = (Some((slot, hash@)), bytes@);
        let ghost all = pre.held().push(b);
        let point = Point::Specific(slot, hash);
        let window_point = point.duplicate();
        self.blocks.push(StoredBlock { point, bytes });
        buffer_roll_forward(&mut self.buffer, window_point);
        self.newest_slot = Some(slot);
        assert(self.held() =~= all);
        assert(self.window() =~= all.map_values(|x: BlockModel| x.0));
        assert(strictly_increasing_slots(all));
        assert(all[all.len() - 1] == b);

        let ready = buffer_pop_with_depth(&mut self.buffer, self.min_depth);
        let k = ready.len();
        assert(k == ready_count(all.len(), pre.depth())) by {
            if all.len() >= pre.depth() {
                assert(ready@.map_values(|p: Point| p@).len() == k);
            }
        }
        let mut confirmed = self.blocks.split_off(k);
        std::mem::swap(&mut self.blocks, &mut confirmed);
        assert(self.held() =~= all.skip(k as int));
        assert(self.window() =~= all.skip(k as int).map_values(|x: BlockModel| x.0));
        let ghost stop = first_stop(pre.policy(), all, k as nat, pre.confirmed(), 0);

        let mut events: Vec<ChainEvent> = Vec::new();
        let mut i: usize = 0;
        while i < k
            invariant
                k == ready_count(all.len(), pre.depth()),
                k <= all.len(),
                pre == *old(self),
                !(pre.newest() is Some && slot <= pre.newest()->Some_0),
                all == pre.held().push(b),
                b == (Some((slot, hash@)), bytes@),
                all.len() >= 1,
                slot_of(all[all.len() - 1].0) == slot,
                i <= k,
                events@.len() == i,
                confirmed@.len() == k - i,
                forall|j: int| 0 <= j < k - i ==> (#[trigger] confirmed@[j])@ == all[i + j],
                events_of(events@) == Seq::new(i as nat, |j: int| EventModel::Block(all[j].1)),
                self.block_count == count_after(pre.confirmed(), i as nat),
                stop == first_stop(pre.policy(), all, k as nat, pre.confirmed(), 0),
                first_stop(pre.policy(), all, k as nat, pre.confirmed(), i as nat) == stop,
                self.held() == all.skip(k as int),
                self.wf(),
                self.newest_slot == Some(slot),
                self.min_depth == pre.min_depth,
                self.finalize == pre.finalize,
                strictly_increasing_slots(all),
                forall|j: int| 0 <= j < all.len() ==> (#[trigger] all[j]).0 is Some,
                pre.last_confirmed@ is Some ==> forall|j: int|
                    0 <= j < all.len() ==> pre.last_confirmed@->Some_0 < slot_of((#[trigger] all[j]).0),
                self.last_confirmed@ == (if i > 0 { Some(slot_of(all[i - 1].0)) } else { pre.last_confirmed@ }),
            decreases k - i,
        {
            let blk = confirmed.remove(0);
            assert(blk@ == all[i as int]);
            self.block_count = if self.block_count < u64::MAX { self.block_count + 1 } else { u64::MAX };
            self.last_confirmed = Ghost(Some(slot_of(all[i as int].0)));
            proof {
                let h = self.held();
                assert forall|j: int| 0 <= j < h.len() implies slot_of(all[i as int].0) < slot_of((#[trigger] h[j]).0) by {
                    assert(h[j] == all[k + j]);
                }
                assert(slot_of(all[i as int].0) <= slot);
            }
            let stop_here = self.should_finalize(&blk.point);
            let ghost prev = events@;
            let ev = ChainEvent::Block(blk.bytes);
            assert(ev@ == EventModel::Block(all[i as int].1));
            events.push(ev);
            assert(events@ == prev.push(ev));
            assert(events_of(events@) =~= Seq::new((i + 1) as nat, |j: int| EventModel::Block(all[j].1))) by {
                assert forall|j: int| 0 <= j < i + 1 implies events_of(events@)[j] == EventModel::Block(all[j].1) by {
                    if j < i {
                        assert(events_of(events@)[j] == events_of(prev)[j]);
                    }
                }
            }
            assert(self.wf());
            if stop_here {
                assert(first_stop(pre.policy(), all, k as nat, pre.confirmed(), i as nat) == Some(i as nat));
                assert(forward_events(all, (i + 1) as nat, true, tip) =~= events_of(events@));
                return Ok(Step { events, next: Continuation::DropOut });
            }
            i = i + 1;
        }
        events.push(ChainEvent::Tip(tip));
        assert(forward_events(all, k as nat, false, tip) =~= events_of(events@));
        Ok(Step { events, next: Continuation::Proceed })
    }
    /// Takes in a new block from its raw bytes: decodes its header, works out
    /// its absolute slot, then goes on as `on_decoded_block`. Bytes that do not
    /// decode, or a slot that does not fit in a `u64`, are a fatal failure.
    pub fn on_roll_forward(&mut self, bytes: Vec<u8>, tip: u64) -> (r: Result<Step, AttemptError>)
        requires
            old(self).wf(),
        ensures
            final(self).wf(),
            final(self).depth() == old(self).depth(),
            final(self).policy() == old(self).policy(),
            (block_point(bytes@) is None) ==> {
                &&& r == Err::<Step, AttemptError>(AttemptError::Other(FatalCause::BlockDecode))
                &&& *final(self) == *old(self)
            },
            (block_point(bytes@) is Some) ==>
                forward_outcome(*old(self), *final(self), (block_point(bytes@), bytes@), tip, r),
    {
        match decode_block_header(&bytes) {
            Ok((header, hash)) => match absolute_slot(header) {
                Some(slot) => self.on_decoded_block(slot, hash, bytes, tip),
                None => Err(AttemptError::Other(FatalCause::BlockDecode)),
            },
            Err(_) => Err(AttemptError::Other(FatalCause::BlockDecode)),
        }
    }

    /// Rolls the chain back to `point`. Within the window the newer blocks are
    /// dropped; beyond it everything held is orphaned and a rollback event is
    /// emitted for downstream.
    pub fn on_rollback(&mut self, point: Point) -> (r: (RollbackEffect, Vec<ChainEvent>))
        requires
            old(self).wf(),
        ensures
            final(self).wf(),
            rollback_outcome(*old(self), *final(self), point@, (r.0, events_of(r.1@))),
    {
        let ghost pre = *self;
        let ghost s = pre.held();
        let ghost pv = point@;
        let effect = buffer_roll_back(&mut self.buffer, &point);
        match effect {
            RollbackEffect::Handled => {
                let limit = point.slot_or_default();
                let ghost idx = choose|i: int|
                    0 <= i < pre.window().len() && pre.window()[i] == point@
                    && (forall|j: int| 0 <= j < i ==> pre.window()[j] != point@)
                    && buffer_points(self.buffer) == pre.window().take(i + 1);
                assert(s[idx].0 == point@);
                let mut n: usize = 0;
                while n < self.blocks.len() && self.blocks[n].point.slot_or_default() <= limit
                    invariant
                        0 <= idx < s.len(),
                        self.held() == s,
                        s[idx].0 == point@,
                        limit == slot_of(point@),
                        strictly_increasing_slots(s),
                        n <= idx + 1,
                        forall|j: int| 0 <= j < n ==> slot_of((#[trigger] s[j]).0) <= limit,
                    decreases self.blocks.len() - n,
                {
                    assert(s[n as int] == self.blocks@[n as int]@);
                    n = n + 1;
                }
                proof {
                    if n < self.blocks.len() {
                        assert(s[n as int] == self.blocks@[n as int]@);
                    }
                    if n <= idx {
                        assert(slot_of(s[n as int].0) <= slot_of(s[idx].0));
                    }
                }
                self.blocks.truncate(n);
                assert(self.held() =~= s.take(idx + 1));
                assert(self.window() =~= self.held().map_values(|b: BlockModel| b.0));
                self.newest_slot = Some(limit);
                (RollbackEffect::Handled, Vec::new())
            },
            RollbackEffect::OutOfScope => {
                self.blocks.clear();
                self.newest_slot = match &point {
                    Point::Origin => None,
                    Point::Specific(slot, _) => Some(*slot),
                };
                self.last_confirmed = Ghost(None);
                assert(self.held() =~= Seq::<BlockModel>::empty());
                assert(self.window() =~= self.held().map_values(|b: BlockModel| b.0));
                let mut events: Vec<ChainEvent> = Vec::new();
                events.push(ChainEvent::Rollback(point));
                assert(events_of(events@) =~= seq![EventModel::Rollback(pv)]);
                (RollbackEffect::OutOfScope, events)
            },
        }
    }
    /// Dispatches one protocol message. An `Await` changes nothing: the
    /// session then waits for the message that the peer must send next.
    pub fn on_next_message(&mut self, msg: ChainMessage) -> (r: Result<Step, AttemptError>)
        requires
            old(self).wf(),
        ensures
            final(self).wf(),
            final(self).depth() == old(self).depth(),
            final(self).policy() == old(self).policy(),
            match msg {
                ChainMessage::RollForward(bytes, tip) => {
                    &&& (block_point(bytes@) is None) ==> {
                        &&& r == Err::<Step, AttemptError>(AttemptError::Other(FatalCause::BlockDecode))
                        &&& *final(self) == *old(self)
                    }
                    &&& (block_point(bytes@) is Some) ==>
                        forward_outcome(*old(self), *final(self), (block_point(bytes@), bytes@), tip, r)
                },
                ChainMessage::RollBackward(p) => {
                    &&& r is Ok
                    &&& r->Ok_0.next == Continuation::Proceed
                    &&& exists|e: RollbackEffect|
                        rollback_outcome(*old(self), *final(self), p@, (e, events_of(r->Ok_0.events@)))
                },
                ChainMessage::Await => {
                    &&& r is Ok
                    &&& r->Ok_0.next == Continuation::AwaitReply
                    &&& r->Ok_0.events@.len() == 0
                    &&& *final(self) == *old(self)
                },
            },
    {
        match msg {
            ChainMessage::RollForward(bytes, tip) => self.on_roll_forward(bytes, tip),
            ChainMessage::RollBackward(p) => {
                let ghost pre = *self;
                let ghost pv = p@;
                let (effect, events) = self.on_rollback(p);
                let step = Step { events, next: Continuation::Proceed };
                assert(rollback_outcome(pre, *self, pv, (effect, events_of(step.events@))));
                Ok(step)
            },
            ChainMessage::Await => Ok(Step { events: Vec::new(), next: Continuation::AwaitReply }),
        }
    }
}

/// A rollback point that the window holds is at or after its oldest block, so a
/// point older than the oldest held block always falls outside the window.
pub proof fn lemma_rollback_scope(obs: ChainObserver, p: Option<(u64, Seq<u8>)>)
    requires
        obs.wf(),
        obs.held().len() > 0,
    ensures
        obs.held().map_values(|b: BlockModel| b.0).contains(p) ==> slot_of(p) >= slot_of(obs.held()[0].0),
        slot_of(p) < slot_of(obs.held()[0].0) ==> !obs.held().map_values(|b: BlockModel| b.0).contains(p),
{
    let s = obs.held();
    let pts = s.map_values(|b: BlockModel| b.0);
    if pts.contains(p) {
        let i = choose|i: int| 0 <= i < pts.len() && #[trigger] pts[i] == p;
        assert(s[i].0 == p);
        if i > 0 {
            assert(slot_of(s[0].0) < slot_of(s[i].0));
        }
    }
}

proof fn lemma_first_stop_bound(policy: Option<FinalizePolicy>, all: Seq<BlockModel>, k: nat, c0: u64, i: nat)
    ensures
        first_stop(policy, all, k, c0, i) is Some ==> i <= first_stop(policy, all, k, c0, i)->Some_0 < k,
    decreases k - i,
{
    if i < k {
        lemma_first_stop_bound(policy, all, k, c0, (i + 1) as nat);
    }
}

/// Every held block is at or before the newest slot seen, so a roll-forward of
/// a point that is already held is always refused as out of order.
pub proof fn lemma_held_not_after_newest(obs: ChainObserver, b: BlockModel)
    requires
        obs.wf(),
    ensures
        forall|i: int| 0 <= i < obs.held().len() ==>
            obs.newest() is Some && slot_of((#[trigger] obs.held()[i]).0) <= obs.newest()->Some_0,
        obs.held().map_values(|x: BlockModel| x.0).contains(b.0) ==>
            obs.newest() is Some && slot_of(b.0) <= obs.newest()->Some_0,
{
    let s = obs.held();
    assert forall|i: int| 0 <= i < s.len() implies
        obs.newest() is Some && slot_of((#[trigger] s[i]).0) <= obs.newest()->Some_0 by {
        if i < s.len() - 1 {
            assert(slot_of(s[i].0) < slot_of(s[s.len() - 1].0));
        }
    }
    let pts = s.map_values(|x: BlockModel| x.0);
    if pts.contains(b.0) {
        let i = choose|i: int| 0 <= i < pts.len() && #[trigger] pts[i] == b.0;
        assert(s[i].0 == b.0);
    }
}

/// When a roll-forward that follows the newest slot makes ready blocks meet
/// the finalize policy, the first such block `j` is the last one emitted: the
/// session stops with the blocks up to `j`, no tip, and the count raised by
/// `j + 1` (saturating at `u64::MAX`); the later ready blocks are never emitted.
pub proof fn lemma_finalize_stops_batch(
    pre: ChainObserver,
    post: ChainObserver,
    b: BlockModel,
    tip: u64,
    r: Result<Step, AttemptError>,
    j: nat,
)
    requires
        pre.wf(),
        forward_outcome(pre, post, b, tip, r),
        pre.newest() is None || slot_of(b.0) > pre.newest()->Some_0,
        first_stop(pre.policy(), pre.held().push(b), ready_count(pre.held().len() + 1, pre.depth()), pre.confirmed(), 0)
            == Some(j),
    ensures
        r is Ok,
        r->Ok_0.next == Continuation::DropOut,
        events_of(r->Ok_0.events@) == Seq::new(j + 1, |i: int| EventModel::Block(pre.held().push(b)[i].1)),
        post.confirmed() == count_after(pre.confirmed(), j + 1),
        j < ready_count(pre.held().len() + 1, pre.depth()),
{
    let all = pre.held().push(b);
    lemma_first_stop_bound(pre.policy(), all, ready_count(all.len(), pre.depth()), pre.confirmed(), 0);
}

/// Over two roll-forwards in a row, each block confirmed by the second comes
/// after each block confirmed by the first in slot order, so no block is
/// confirmed twice.
pub proof fn lemma_confirmations_increase(
    o1: ChainObserver,
    o2: ChainObserver,
    o3: ChainObserver,
    b1: BlockModel,
    b2: BlockModel,
    t1: u64,
    t2: u64,
    r1: Result<Step, AttemptError>,
    r2: Result<Step, AttemptError>,
)
    requires
        o1.wf(),
        forward_outcome(o1, o2, b1, t1, r1),
        forward_outcome(o2, o3, b2, t2, r2),
        r1 is Ok,
        r2 is Ok,
    ensures
        forall|i: int, j: int|
            0 <= i < forward_confirmed(o1, b1).len() && 0 <= j < forward_confirmed(o2, b2).len()
            ==> slot_of((#[trigger] forward_confirmed(o1, b1)[i]).0) < slot_of((#[trigger] forward_confirmed(o2, b2)[j]).0),
{
    let c1 = forward_confirmed(o1, b1);
    let c2 = forward_confirmed(o2, b2);
    let all1 = o1.held().push(b1);
    let all2 = o2.held().push(b2);
    let k1 = ready_count(all1.len(), o1.depth());
    let k2 = ready_count(all2.len(), o2.depth());
    lemma_first_stop_bound(o1.policy(), all1, k1, o1.confirmed(), 0);
    lemma_first_stop_bound(o2.policy(), all2, k2, o2.confirmed(), 0);
    assert forall|i: int, j: int| 0 <= i < c1.len() && 0 <= j < c2.len()
        implies slot_of((#[trigger] c1[i]).0) < slot_of((#[trigger] c2[j]).0) by {
        let n1 = c1.len();
        assert(c1[n1 - 1] == all1[n1 - 1]);
        if i < n1 - 1 {
            assert(slot_of(c1[i].0) < slot_of(c1[n1 - 1].0));
        }
        assert(c2[j] == all2[j]);
    }
}

/// One step of a session between rollbacks that reach beyond the window: a
/// roll-forward that went through, or a rollback handled within the window.
pub enum SessionStep {
    Forward(BlockModel, u64, Result<Step, AttemptError>),
    HandledRollback(Option<(u64, Seq<u8>)>, Seq<EventModel>),
}

/// Whether the step `st` leads from `pre` to `post`.
pub open spec fn step_holds(pre: ChainObserver, post: ChainObserver, st: SessionStep) -> bool {
    match st {
        SessionStep::Forward(b, tip, r) => forward_outcome(pre, post, b, tip, r) && r is Ok,
        SessionStep::HandledRollback(p, ev) => rollback_outcome(pre, post, p, (RollbackEffect::Handled, ev)),
    }
}

/// The blocks that the step `st` confirms from `pre`, oldest first.
pub open spec fn step_confirmed(pre: ChainObserver, st: SessionStep) -> Seq<BlockModel> {
    match st {
        SessionStep::Forward(b, _, _) => forward_confirmed(pre, b),
        SessionStep::HandledRollback(_, _) => Seq::empty(),
    }
}

pub open spec fn session_holds(states: Seq<ChainObserver>, steps: Seq<SessionStep>) -> bool {
    &&& states.len() == steps.len() + 1
    &&& forall|i: int| 0 <= i < states.len() ==> (#[trigger] states[i]).wf()
    &&& forall|i: int| 0 <= i < steps.len() ==> step_holds(states[i], states[i + 1], #[trigger] steps[i])
}

proof fn lemma_last_confirmed_grows(states: Seq<ChainObserver>, steps: Seq<SessionStep>, a: int, k: int)
    requires
        session_holds(states, steps),
        0 <= a <= k < states.len(),
        states[a].last_confirmed_slot() is Some,
    ensures
        states[k].last_confirmed_slot() is Some,
        states[a].last_confirmed_slot()->Some_0 <= states[k].last_confirmed_slot()->Some_0,
    decreases k - a,
{
    if a < k {
        lemma_last_confirmed_grows(states, steps, a + 1, k);
        let pre = states[a];
        let post = states[a + 1];
        let st = steps[a];
        assert(step_holds(pre, post, st));
        match st {
            SessionStep::Forward(b, _, _) => {
                let all = pre.held().push(b);
                let kk = ready_count(all.len(), pre.depth());
                let n = emitted_count(first_stop(pre.policy(), all, kk, pre.confirmed(), 0), kk);
                lemma_first_stop_bound(pre.policy(), all, kk, pre.confirmed(), 0);
                if n > 0 {
                    assert(pre.last_confirmed_slot()->Some_0 < slot_of(all[n - 1].0));
                }
            },
            SessionStep::HandledRollback(p, _) => {
                assert(pre.held().map_values(|x: BlockModel| x.0).contains(p));
            },
        }
    }
}

proof fn lemma_step_confirmed_bounded(pre: ChainObserver, post: ChainObserver, st: SessionStep, x: int)
    requires
        pre.wf(),
        step_holds(pre, post, st),
        0 <= x < step_confirmed(pre, st).len(),
    ensures
        post.last_confirmed_slot() is Some,
        slot_of(step_confirmed(pre, st)[x].0) <= post.last_confirmed_slot()->Some_0,
        pre.last_confirmed_slot() is Some ==> pre.last_confirmed_slot()->Some_0 < slot_of(step_confirmed(pre, st)[x].0),
{
    if let SessionStep::Forward(b, _, _) = st {
        let all = pre.held().push(b);
        let kk = ready_count(all.len(), pre.depth());
        let n = emitted_count(first_stop(pre.policy(), all, kk, pre.confirmed(), 0), kk);
        lemma_first_stop_bound(pre.policy(), all, kk, pre.confirmed(), 0);
        let c = step_confirmed(pre, st);
        assert(c[x] == all[x]);
        if x < n - 1 {
            assert(all.take(n as int)[x] == all[x]);
            assert(all.take(n as int)[n - 1] == all[n - 1]);
        }
    }
}

/// Over a session of roll-forwards and rollbacks handled within the window,
/// each block confirmed by a later step comes after each block confirmed by an
/// earlier one in slot order: confirmed blocks come out in strictly increasing
/// slot order and none twice.
pub proof fn lemma_session_confirmations_increase(states: Seq<ChainObserver>, steps: Seq<SessionStep>)
    requires
        session_holds(states, steps),
    ensures
        forall|i1: int, i2: int, x: int, y: int|
            0 <= i1 < i2 < steps.len()
            && 0 <= x < step_confirmed(states[i1], steps[i1]).len()
            && 0 <= y < step_confirmed(states[i2], steps[i2]).len()
            ==> slot_of((#[trigger] step_confirmed(states[i1], steps[i1])[x]).0)
                < slot_of((#[trigger] step_confirmed(states[i2], steps[i2])[y]).0),
{
    assert forall|i1: int, i2: int, x: int, y: int|
        0 <= i1 < i2 < steps.len()
        && 0 <= x < step_confirmed(states[i1], steps[i1]).len()
        && 0 <= y < step_confirmed(states[i2], steps[i2]).len()
        implies slot_of((#[trigger] step_confirmed(states[i1], steps[i1])[x]).0)
            < slot_of((#[trigger] step_confirmed(states[i2], steps[i2])[y]).0) by {
        assert(states[i1].wf());
        assert(step_holds(states[i1], states[i1 + 1], steps[i1]));
        lemma_step_confirmed_bounded(states[i1], states[i1 + 1], steps[i1], x);
        lemma_last_confirmed_grows(states, steps, i1 + 1, i2);
        assert(states[i2].wf());
        assert(step_holds(states[i2], states[i2 + 1], steps[i2]));
        lemma_step_confirmed_bounded(states[i2], states[i2 + 1], steps[i2], y);
    }
}

} // verus!
