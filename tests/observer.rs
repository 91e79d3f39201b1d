use n2c_sync::{
    absolute_slot, AttemptError, HeaderSlot, ChainEvent, ChainMessage, ChainObserver, Continuation, FatalCause,
    FinalizePolicy, Point, RollbackEffect, Step,
};

fn hash(slot: u64) -> Vec<u8> {
    vec![slot as u8; 32]
}

fn block(slot: u64) -> Vec<u8> {
    vec![0xb0, slot as u8, 7]
}

fn forward(obs: &mut ChainObserver, slot: u64, tip: u64) -> Step {
    obs.on_decoded_block(slot, hash(slot), block(slot), tip).expect("roll forward")
}

fn observer_at_10_11_12() -> (ChainObserver, Vec<Step>) {
    let mut obs = ChainObserver::new(2, None);
    let steps = vec![forward(&mut obs, 10, 100), forward(&mut obs, 11, 101), forward(&mut obs, 12, 102)];
    (obs, steps)
}

#[test]
fn depth_two_confirms_only_the_oldest() {
    let (obs, steps) = observer_at_10_11_12();
    assert_eq!(obs.pending_slots(), vec![11, 12]);
    assert_eq!(obs.block_count(), 1);
    assert!(matches!(steps[0].events.as_slice(), [ChainEvent::Tip(100)]));
    assert!(matches!(steps[1].events.as_slice(), [ChainEvent::Tip(101)]));
    match steps[2].events.as_slice() {
        [ChainEvent::Block(b), ChainEvent::Tip(102)] => assert_eq!(b, &block(10)),
        other => panic!("unexpected events {:?}", other),
    }
    assert!(steps.iter().all(|s| s.next == Continuation::Proceed));
}

#[test]
fn rollback_within_window_is_handled() {
    let (mut obs, _) = observer_at_10_11_12();
    let (effect, events) = obs.on_rollback(Point::Specific(11, hash(11)));
    assert_eq!(effect, RollbackEffect::Handled);
    assert!(events.is_empty());
    // the block at the rollback point itself stays held; the newer one is gone
    assert_eq!(obs.pending_slots(), vec![11]);
    assert_eq!(obs.block_count(), 1);
}

#[test]
fn rollback_below_window_is_out_of_scope() {
    let (mut obs, _) = observer_at_10_11_12();
    let (effect, events) = obs.on_rollback(Point::Specific(5, hash(5)));
    assert_eq!(effect, RollbackEffect::OutOfScope);
    assert!(obs.pending_slots().is_empty());
    match events.as_slice() {
        [ChainEvent::Rollback(Point::Specific(5, h))] => assert_eq!(h, &hash(5)),
        other => panic!("unexpected events {:?}", other),
    }
}

#[test]
fn rollback_to_unknown_fork_point_is_out_of_scope() {
    let (mut obs, _) = observer_at_10_11_12();
    let (effect, events) = obs.on_rollback(Point::Specific(11, hash(99)));
    assert_eq!(effect, RollbackEffect::OutOfScope);
    assert_eq!(events.len(), 1);
    assert!(obs.pending_slots().is_empty());
}

#[test]
fn rollback_to_origin_clears_everything() {
    let (mut obs, _) = observer_at_10_11_12();
    let (effect, events) = obs.on_rollback(Point::Origin);
    assert_eq!(effect, RollbackEffect::OutOfScope);
    assert!(matches!(events.as_slice(), [ChainEvent::Rollback(Point::Origin)]));
    // a fresh chain may start again from any slot
    let step = forward(&mut obs, 1, 1);
    assert_eq!(step.next, Continuation::Proceed);
}

#[test]
fn chain_goes_on_after_handled_rollback() {
    let (mut obs, _) = observer_at_10_11_12();
    obs.on_rollback(Point::Specific(11, hash(11)));
    let step = forward(&mut obs, 13, 103);
    assert!(matches!(step.events.as_slice(), [ChainEvent::Tip(103)]));
    let step = forward(&mut obs, 14, 104);
    match step.events.as_slice() {
        [ChainEvent::Block(b), ChainEvent::Tip(104)] => assert_eq!(b, &block(11)),
        other => panic!("unexpected events {:?}", other),
    }
    assert_eq!(obs.pending_slots(), vec![13, 14]);
}

#[test]
fn finalize_after_one_block_stops_the_session() {
    let policy = FinalizePolicy { until_hash: None, max_block_quantity: Some(1) };
    let mut obs = ChainObserver::new(0, Some(policy));
    let step = forward(&mut obs, 10, 100);
    assert_eq!(step.next, Continuation::DropOut);
    match step.events.as_slice() {
        [ChainEvent::Block(b)] => assert_eq!(b, &block(10)),
        other => panic!("unexpected events {:?}", other),
    }
    assert_eq!(obs.block_count(), 1);
}

#[test]
fn finalize_at_hash_stops_on_that_block() {
    let policy = FinalizePolicy { until_hash: Some(hash(11)), max_block_quantity: None };
    let mut obs = ChainObserver::new(1, Some(policy));
    assert_eq!(forward(&mut obs, 10, 1).next, Continuation::Proceed);
    assert_eq!(forward(&mut obs, 11, 2).next, Continuation::Proceed);
    let step = forward(&mut obs, 12, 3);
    assert_eq!(step.next, Continuation::DropOut);
    match step.events.as_slice() {
        [ChainEvent::Block(b)] => assert_eq!(b, &block(11)),
        other => panic!("unexpected events {:?}", other),
    }
    assert_eq!(obs.block_count(), 2);
}

#[test]
fn depth_zero_confirms_each_block_at_once() {
    let mut obs = ChainObserver::new(0, None);
    for slot in [3u64, 4, 9] {
        let step = forward(&mut obs, slot, slot);
        assert_eq!(step.events.len(), 2);
        assert!(obs.pending_slots().is_empty());
    }
    assert_eq!(obs.block_count(), 3);
}

#[test]
fn block_not_after_newest_is_fatal() {
    let (mut obs, _) = observer_at_10_11_12();
    let r = obs.on_decoded_block(12, hash(12), block(12), 0);
    assert!(matches!(r, Err(AttemptError::Other(FatalCause::BlockOutOfOrder))));
    let r = obs.on_decoded_block(7, hash(7), block(7), 0);
    assert!(matches!(r, Err(AttemptError::Other(FatalCause::BlockOutOfOrder))));
    assert_eq!(obs.pending_slots(), vec![11, 12]);
}

#[test]
fn block_below_last_confirmed_is_fatal_even_with_empty_window() {
    let mut obs = ChainObserver::new(0, None);
    forward(&mut obs, 20, 1);
    let r = obs.on_decoded_block(19, hash(19), block(19), 0);
    assert!(matches!(r, Err(AttemptError::Other(FatalCause::BlockOutOfOrder))));
}

#[test]
fn undecodable_block_is_fatal() {
    let mut obs = ChainObserver::new(2, None);
    let r = obs.on_roll_forward(vec![0xff, 0x00, 0x13], 5);
    assert!(matches!(r, Err(AttemptError::Other(FatalCause::BlockDecode))));
    let r = obs.on_next_message(ChainMessage::RollForward(vec![], 5));
    assert!(matches!(r, Err(AttemptError::Other(FatalCause::BlockDecode))));
    assert!(obs.pending_slots().is_empty());
}

#[test]
fn await_asks_for_the_reply() {
    let (mut obs, _) = observer_at_10_11_12();
    let step = obs.on_next_message(ChainMessage::Await).expect("await");
    assert_eq!(step.next, Continuation::AwaitReply);
    assert!(step.events.is_empty());
    assert_eq!(obs.pending_slots(), vec![11, 12]);
}

#[test]
fn rollback_message_proceeds() {
    let (mut obs, _) = observer_at_10_11_12();
    let step = obs.on_next_message(ChainMessage::RollBackward(Point::Specific(5, hash(5)))).expect("rollback");
    assert_eq!(step.next, Continuation::Proceed);
    assert_eq!(step.events.len(), 1);
}

#[test]
fn point_helpers() {
    let p = Point::Specific(42, hash(42));
    assert_eq!(p.slot_or_default(), 42);
    assert_eq!(Point::Origin.slot_or_default(), 0);
    assert!(p.same_as(&p.duplicate()));
    assert!(!p.same_as(&Point::Specific(42, hash(43))));
    assert!(!p.same_as(&Point::Origin));
}

/// A minimal epoch-boundary block of epoch 2 (slot 43200).
fn boundary_block() -> Vec<u8> {
    boundary_block_of_epoch(&[0x02])
}

/// A minimal epoch-boundary block whose epoch is the given CBOR integer.
fn boundary_block_of_epoch(epoch: &[u8]) -> Vec<u8> {
    let mut b = vec![0x82, 0x00, 0x83, 0x85, 0x01];
    b.extend_from_slice(&[0x58, 0x20]);
    b.extend_from_slice(&[0x11; 32]);
    b.extend_from_slice(&[0x58, 0x20]);
    b.extend_from_slice(&[0x22; 32]);
    b.push(0x82);
    b.extend_from_slice(epoch);
    b.extend_from_slice(&[0x81, 0x05]);
    b.extend_from_slice(&[0x81, 0xa0]);
    b.extend_from_slice(&[0x80, 0x80]);
    b
}

#[test]
fn decoded_block_is_held_at_its_slot() {
    let mut obs = ChainObserver::new(1, None);
    let step = obs.on_roll_forward(boundary_block(), 7).expect("decodes");
    assert!(matches!(step.events.as_slice(), [ChainEvent::Tip(7)]));
    assert_eq!(obs.pending_slots(), vec![43200]);
    // the same block again does not follow the newest one
    let again = obs.on_roll_forward(boundary_block(), 8);
    assert!(matches!(again, Err(AttemptError::Other(FatalCause::BlockOutOfOrder))));
}

#[test]
fn decoded_block_is_emitted_with_its_bytes() {
    let mut obs = ChainObserver::new(0, None);
    let step = obs.on_next_message(ChainMessage::RollForward(boundary_block(), 9)).expect("decodes");
    match step.events.as_slice() {
        [ChainEvent::Block(b), ChainEvent::Tip(9)] => assert_eq!(b, &boundary_block()),
        other => panic!("unexpected events {:?}", other),
    }
    assert_eq!(obs.block_count(), 1);
}

#[test]
fn boundary_block_with_overflowing_epoch_is_fatal() {
    let mut obs = ChainObserver::new(1, None);
    let huge = [0x1b, 0xff, 0xff, 0xff, 0xff, 0xff, 0xff, 0xff, 0xff];
    let r = obs.on_roll_forward(boundary_block_of_epoch(&huge), 1);
    assert!(matches!(r, Err(AttemptError::Other(FatalCause::BlockDecode))));
    assert!(obs.pending_slots().is_empty());
}

#[test]
fn absolute_slots_of_headers() {
    assert_eq!(absolute_slot(HeaderSlot::Absolute(7)), Some(7));
    assert_eq!(absolute_slot(HeaderSlot::Boundary(2)), Some(43200));
    assert_eq!(absolute_slot(HeaderSlot::Byron(1, 5)), Some(21605));
    assert_eq!(absolute_slot(HeaderSlot::Boundary(u64::MAX)), None);
    let max_epoch = u64::MAX / 432000;
    assert_eq!(absolute_slot(HeaderSlot::Boundary(max_epoch)), Some(max_epoch * 21600));
    assert_eq!(absolute_slot(HeaderSlot::Boundary(max_epoch + 1)), None);
    assert_eq!(absolute_slot(HeaderSlot::Byron(max_epoch, u64::MAX)), None);
}
