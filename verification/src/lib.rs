//! Market-data infrastructure: a bounded staging queue for trade events, a
//! multi-interval candlestick aggregator, a publish/subscribe fan-out layer
//! keyed by (instrument, interval), and CPU-placement helpers.

use vstd::prelude::*;

pub mod affinity;
pub mod distributor;
pub mod keys;
pub mod kline;
pub mod models;
pub mod queue;

pub use distributor::Distributor;
pub use kline::KLineBuilder;
pub use models::{KLine, Tick};
pub use queue::RingBuffer;

verus! {

#[verifier::external_type_specification]
#[verifier::external_body]
pub struct ExSerdeJsonError(serde_json::Error);

/// Errors reported by the pipeline components. None is fatal to the
/// pipeline: a full queue sheds the event, and storage or receiver errors
/// are reported to the worker loop, which logs them and goes on.
#[derive(Debug)]
pub enum MdiError {
    ReceiverError(String),
    QueueError(String),
    StorageError(String),
    SerializationError(serde_json::Error),
    Other(String),
}

impl From<serde_json::Error> for MdiError {
    fn from(e: serde_json::Error) -> (r: MdiError) {
        MdiError::SerializationError(e)
    }
}

impl vstd::std_specs::convert::FromSpecImpl<serde_json::Error> for MdiError {
    open spec fn obeys_from_spec() -> bool {
        true
    }

    open spec fn from_spec(e: serde_json::Error) -> MdiError {
        MdiError::SerializationError(e)
    }
}

pub type Result<T, MdiE = MdiError> = core::result::Result<T, MdiE>;

} // verus!
