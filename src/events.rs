//! Progress events and the bus that hands them to observers.

use vstd::prelude::*;

verus! {

#[derive(Clone, Debug)]
pub enum ProcessingEvent {
    PhaseStarted { phase: u8, description: String },
    Progress { phase: u8, current: usize, total: usize, message: String },
    PhaseCompleted { phase: u8, duration_ms: u64 },
    Error { phase: u8, error: String },
    AllCompleted { total_duration_ms: u64, files_extracted: usize },
    ChunkStarted { chunk_id: usize, chunk_name: String },
    ChunkProgress { chunk_id: usize, frames_processed: usize, qr_codes_found: usize, status: String },
    ChunkCompleted { chunk_id: usize, qr_codes_found: usize, jsonl_file: String, duration_ms: u64 },
    FileReconstructed { file_name: String, file_size: u64, checksum_valid: bool, output_path: String },
    ChecksumValidation {
        file_name: String,
        checksum_type: String,
        expected: String,
        actual: String,
        valid: bool,
    },
    SystemError { context: String, error: String },
    InitializationProgress { stage: String, message: String },
    FinalSummary { files_count: usize, output_dir: String, total_duration_ms: u64 },
    ModeTransition { from: String, to: String, reason: String },
    FrameProgress { chunk_id: usize, frames_processed: u64, total_frames: u64, qr_codes_found: usize },
}

/// An observer of events. Observers only watch: they must not block and
/// may be called from any thread.
pub trait OutputHandler {
    fn handle_event(&self, event: &ProcessingEvent);
}

/// Hands every emitted event to each subscribed observer, in subscription
/// order.
pub struct EventBus<H: OutputHandler> {
    callbacks: Vec<H>,
}

impl<H: OutputHandler> EventBus<H> {
    pub closed spec fn observers(&self) -> Seq<H> {
        self.callbacks@
    }

    /// A bus with no observer.
    pub fn new() -> (r: Self)
        ensures
            r.observers() == Seq::<H>::empty(),
    {
        EventBus { callbacks: Vec::new() }
    }

    /// Adds an observer after the others.
    pub fn subscribe(&mut self, callback: H)
        ensures
            final(self).observers() == old(self).observers().push(callback),
    {
        self.callbacks.push(callback);
    }

    /// Number of observers.
    pub fn observer_count(&self) -> (r: usize)
        ensures
            r == self.observers().len(),
    {
        self.callbacks.len()
    }

    /// Hands `event` to each observer in order.
    pub fn emit(&self, event: ProcessingEvent) {
        let mut i: usize = 0;
        while i < self.callbacks.len()
            invariant
                i <= self.callbacks@.len(),
            decreases self.callbacks@.len() - i,
        {
            self.callbacks[i].handle_event(&event);
            i = i + 1;
        }
    }
}

} // verus!
