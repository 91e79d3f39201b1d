//! Chain-follow core of a node-to-client synchronisation session: a
//! rollback-aware window over the unconfirmed tail of the chain, the observer
//! that confirms blocks once they are deep enough, session bootstrap outcomes
//! and the retry policy that wraps whole attempts.
mod point;
mod buffer;
mod observer;
mod bootstrap;
mod retry;

pub use point::{Point, ChainEvent, EventModel, FatalCause, AttemptError};
pub use buffer::RollbackEffect;
pub use observer::{ChainObserver, ChainMessage, Continuation, FinalizePolicy, Step, StoredBlock, lemma_rollback_scope,
    lemma_confirmations_increase, lemma_held_not_after_newest, lemma_finalize_stops_batch, HeaderSlot,
    absolute_slot, SessionStep, lemma_session_confirmations_increase};
pub use bootstrap::{HandshakeReply, handshake_outcome, intersection_outcome, network_magic};
pub use retry::{RetryPolicy, RetryState, RetryDecision, compute_backoff_delay, do_chainsync};
