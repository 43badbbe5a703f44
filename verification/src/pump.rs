//! What a pump does between a source of chunks and a sink: it hands each
//! chunk on, and stops for good when the source ends or fails or the sink
//! takes no more.

use vstd::prelude::*;

verus! {

/// How many chunks a queue between two stages holds before the stage that
/// fills it has to wait.
pub const QUEUE_CAPACITY: usize = 10000;

/// How many range requests are under way at a time.
pub const CONCURRENT_REQUEST_LIMIT: usize = 100;

/// What happened at a pump.
pub enum PumpEvent {
    /// The source gave a chunk.
    Chunk(Vec<u8>),
    /// The source failed.
    SourceFailed,
    /// The source has no more chunks.
    SourceEnded,
    /// The sink took the chunk.
    Delivered,
    /// The sink failed or is gone.
    DeliveryFailed,
}

/// What a pump does next.
pub enum PumpAction {
    /// Hand the chunk to the sink.
    Deliver(Vec<u8>),
    /// Ask the source for the next chunk.
    Read,
    /// Stop, without a word to anyone.
    Stop,
}

pub open spec fn spec_pump_step(event: PumpEvent) -> PumpAction {
    match event {
        PumpEvent::Chunk(bytes) => PumpAction::Deliver(bytes),
        PumpEvent::Delivered => PumpAction::Read,
        PumpEvent::SourceFailed => PumpAction::Stop,
        PumpEvent::SourceEnded => PumpAction::Stop,
        PumpEvent::DeliveryFailed => PumpAction::Stop,
    }
}

/// Decides what a pump does after `event`. A pump starts by reading.
pub fn pump_step(event: PumpEvent) -> (action: PumpAction)
    ensures
        action == spec_pump_step(event),
{
    match event {
        PumpEvent::Chunk(bytes) => PumpAction::Deliver(bytes),
        PumpEvent::Delivered => PumpAction::Read,
        PumpEvent::SourceFailed => PumpAction::Stop,
        PumpEvent::SourceEnded => PumpAction::Stop,
        PumpEvent::DeliveryFailed => PumpAction::Stop,
    }
}

} // verus!
