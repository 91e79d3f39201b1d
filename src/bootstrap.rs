use vstd::prelude::*;
use crate::point::{Point, FatalCause, AttemptError};

verus! {

/// The well-known network magic of mainnet.
pub open spec fn mainnet_magic_value() -> u64 {
    764824073
}

/// Relies on pallas's MAINNET_MAGIC constant.
#[verifier::external_body]
fn mainnet_magic() -> (r: u64)
    ensures
        r == mainnet_magic_value(),
{
    pallas::network::miniprotocols::MAINNET_MAGIC
}

/// The network magic to use: the configured one, else mainnet's.
pub fn network_magic(configured: Option<u64>) -> (r: u64)
    ensures
        r == match configured {
            Some(m) => m,
            None => mainnet_magic_value(),
        },
{
    match configured {
        Some(m) => m,
        None => mainnet_magic(),
    }
}

/// How the peer answered the version handshake.
#[derive(Debug)]
pub enum HandshakeReply {
    /// The peer accepted one of the proposed versions.
    Accepted,
    /// The peer refused, or no version could be agreed on.
    Refused,
    /// The exchange itself failed.
    TransportError(String),
}

/// Classifies the handshake: only an acceptance goes on; a refusal is fatal;
/// a transport failure may be retried.
pub fn handshake_outcome(reply: HandshakeReply) -> (r: Result<(), AttemptError>)
    ensures
        match reply {
            HandshakeReply::Accepted => r is Ok,
            HandshakeReply::Refused => r == Err::<(), AttemptError>(AttemptError::Other(FatalCause::HandshakeRefused)),
            HandshakeReply::TransportError(m) => r is Err && r->Err_0 is Recoverable
                && r->Err_0->Recoverable_0@ == m@,
        },
{
    match reply {
        HandshakeReply::Accepted => Ok(()),
        HandshakeReply::Refused => Err(AttemptError::Other(FatalCause::HandshakeRefused)),
        HandshakeReply::TransportError(m) => Err(AttemptError::Recoverable(m)),
    }
}

/// Classifies the search for the chain intersection: a found point starts the
/// session; none found is fatal; a transport failure may be retried.
pub fn intersection_outcome(found: Result<Option<Point>, String>) -> (r: Result<Point, AttemptError>)
    ensures
        match found {
            Ok(Some(p)) => r is Ok && r->Ok_0@ == p@,
            Ok(None) => r == Err::<Point, AttemptError>(AttemptError::Other(FatalCause::NoIntersection)),
            Err(m) => r is Err && r->Err_0 is Recoverable && r->Err_0->Recoverable_0@ == m@,
        },
{
    match found {
        Ok(Some(p)) => Ok(p),
        Ok(None) => Err(AttemptError::Other(FatalCause::NoIntersection)),
        Err(m) => Err(AttemptError::Recoverable(m)),
    }
}

} // verus!
