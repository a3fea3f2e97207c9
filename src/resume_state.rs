//! The resume-state document: what is known of each chunk of a run, and the
//! decisions taken from it on restart.

use vstd::prelude::*;
use crate::text::{decimal_of, padded_decimal, push_decimal, push_padded_decimal};

verus! {

#[derive(Clone, Copy, Debug, PartialEq, Eq, Structural)]
pub enum ChunkProcessingStatus {
    NotStarted,
    Processing,
    Completed,
    Failed,
    Interrupted,
}

/// What the run knows of one chunk.
#[derive(Clone, Debug)]
pub struct ChunkState {
    pub chunk_id: usize,
    pub video_file: String,
    pub jsonl_file: String,
    pub status: ChunkProcessingStatus,
    pub last_frame_processed: u64,
    pub qr_codes_found: usize,
    pub processing_time_ms: u64,
    pub error_count: usize,
    pub last_error: Option<String>,
}

/// The resume-state document of a run.
#[derive(Clone, Debug)]
pub struct ResumeState {
    pub version: String,
    pub input_file: String,
    pub output_dir: String,
    pub chunk_count: usize,
    pub thread_count: usize,
    pub skip_frames: usize,
    pub phase_completed: u8,
    /// One entry per tracked chunk, chunk ids distinct.
    pub chunks: Vec<ChunkState>,
    pub total_frames: u64,
    pub start_time: Option<u64>,
    pub last_update: u64,
}

/// Name of chunk `chunk_id`'s file with the given extension:
/// `chunk_` and the one-based number on at least three digits.
pub open spec fn chunk_file_name(chunk_id: nat, ext: Seq<char>) -> Seq<char> {
    "chunk_"@ + padded_decimal(chunk_id + 1, 3) + ext
}

/// File name of chunk `chunk_id`'s sidecar.
pub open spec fn sidecar_name_spec(chunk_id: nat) -> Seq<char> {
    chunk_file_name(chunk_id, ".jsonl"@)
}

/// File name of chunk `chunk_id`'s video segment.
pub open spec fn segment_name_spec(chunk_id: nat) -> Seq<char> {
    chunk_file_name(chunk_id, ".mp4"@)
}

fn chunk_file(chunk_id: usize, ext: &str) -> (r: String)
    requires
        chunk_id < u64::MAX,
    ensures
        r@ == chunk_file_name(chunk_id as nat, ext@),
{
    let mut s = String::from_str("chunk_");
    push_padded_decimal(&mut s, chunk_id as u64 + 1, 3);
    s.append(ext);
    s
}

/// File name of chunk `chunk_id`'s sidecar, e.g. `chunk_001.jsonl` for 0.
pub fn sidecar_file_name(chunk_id: usize) -> (r: String)
    requires
        chunk_id < u64::MAX,
    ensures
        r@ == sidecar_name_spec(chunk_id as nat),
{
    chunk_file(chunk_id, ".jsonl")
}

/// File name of chunk `chunk_id`'s video segment, e.g. `chunk_001.mp4`.
pub fn segment_file_name(chunk_id: usize) -> (r: String)
    requires
        chunk_id < u64::MAX,
    ensures
        r@ == segment_name_spec(chunk_id as nat),
{
    chunk_file(chunk_id, ".mp4")
}

/// Chunk `i`'s segment is reported present.
pub open spec fn segment_present(present: Seq<bool>, i: int) -> bool {
    0 <= i < present.len() && present[i]
}

pub open spec fn all_segments_present(present: Seq<bool>, n: nat) -> bool {
    forall|i: int| 0 <= i < n ==> #[trigger] segment_present(present, i)
}

pub open spec fn ids_distinct(cs: Seq<ChunkState>) -> bool {
    forall|i: int, j: int| 0 <= i < j < cs.len() ==> cs[i].chunk_id != cs[j].chunk_id
}

pub open spec fn has_chunk(cs: Seq<ChunkState>, id: usize) -> bool {
    exists|i: int| 0 <= i < cs.len() && #[trigger] cs[i].chunk_id == id
}

/// Chunks with status `st`.
pub open spec fn count_status(cs: Seq<ChunkState>, st: ChunkProcessingStatus) -> nat
    decreases cs.len(),
{
    if cs.len() == 0 {
        0
    } else {
        count_status(cs.drop_last(), st) + if cs.last().status == st {
            1nat
        } else {
            0nat
        }
    }
}

/// QR codes found over all chunks, saturating at `u64::MAX`.
pub open spec fn total_qr(cs: Seq<ChunkState>) -> nat
    decreases cs.len(),
{
    if cs.len() == 0 {
        0
    } else {
        let s: nat = total_qr(cs.drop_last()) + cs.last().qr_codes_found as nat;
        if s > u64::MAX {
            u64::MAX as nat
        } else {
            s
        }
    }
}

pub open spec fn summary_text(completed: nat, total: nat, processing: nat, failed: nat, qr: nat) -> Seq<char> {
    "Chunks: "@ + decimal_of(completed) + "/"@ + decimal_of(total) + " completed, "@ + decimal_of(
        processing,
    ) + " processing, "@ + decimal_of(failed) + " failed | QR codes: "@ + decimal_of(qr)
}

/// Threshold of sidecar lines below which an untracked chunk's sidecar is
/// taken as unfinished.
pub const MIN_SIDECAR_LINES: usize = 100;

/// The chunks `get_incomplete_chunks` reports, among the first `n`.
pub open spec fn incomplete_spec(cs: Seq<ChunkState>, sidecar_lines: Seq<Option<usize>>, n: nat) -> Seq<usize>
    decreases n,
{
    if n == 0 {
        Seq::empty()
    } else {
        let i = (n - 1) as usize;
        let prev = incomplete_spec(cs, sidecar_lines, (n - 1) as nat);
        let incomplete = if has_chunk(cs, i) {
            exists|k: int| 0 <= k < cs.len() && #[trigger] cs[k].chunk_id == i && cs[k].status != ChunkProcessingStatus::Completed
        } else {
            i >= sidecar_lines.len() || match sidecar_lines[i as int] {
                None => true,
                Some(lines) => lines < MIN_SIDECAR_LINES,
            }
        };
        if incomplete {
            prev.push(i)
        } else {
            prev
        }
    }
}

/// The run-wide fields other than `chunks` and `last_update` agree.
pub open spec fn same_settings(a: ResumeState, b: ResumeState) -> bool {
    &&& a.version == b.version
    &&& a.input_file == b.input_file
    &&& a.output_dir == b.output_dir
    &&& a.chunk_count == b.chunk_count
    &&& a.thread_count == b.thread_count
    &&& a.skip_frames == b.skip_frames
    &&& a.phase_completed == b.phase_completed
    &&& a.total_frames == b.total_frames
    &&& a.start_time == b.start_time
}

impl ResumeState {
    pub open spec fn wf(&self) -> bool {
        ids_distinct(self.chunks@)
    }

    /// A fresh state for a run, started at `now` (seconds since the epoch).
    pub fn new(
        input_file: &str,
        output_dir: &str,
        chunk_count: usize,
        thread_count: usize,
        skip_frames: usize,
        now: u64,
    ) -> (r: Self)
        ensures
            r.wf(),
            r.version@ == "0.1.0"@,
            r.input_file@ == input_file@,
            r.output_dir@ == output_dir@,
            r.chunk_count == chunk_count,
            r.thread_count == thread_count,
            r.skip_frames == skip_frames,
            r.phase_completed == 0,
            r.chunks@.len() == 0,
            r.total_frames == 0,
            r.start_time == Some(now),
            r.last_update == now,
    {
        ResumeState {
            version: String::from_str("0.1.0"),
            input_file: String::from_str(input_file),
            output_dir: String::from_str(output_dir),
            chunk_count,
            thread_count,
            skip_frames,
            phase_completed: 0,
            chunks: Vec::new(),
            total_frames: 0,
            start_time: Some(now),
            last_update: now,
        }
    }

    /// Whether this state belongs to a run on `input_file` with
    /// `chunk_count` chunks; a state of another run is to be discarded.
    pub fn matches_run(&self, input_file: &str, chunk_count: usize) -> (r: bool)
        ensures
            r == (self.input_file@ == input_file@ && self.chunk_count == chunk_count),
    {
        let wanted = String::from_str(input_file);
        self.chunk_count == chunk_count && self.input_file == wanted
    }

    fn find_chunk(&self, chunk_id: usize) -> (r: Option<usize>)
        ensures
            match r {
                Some(i) => i < self.chunks@.len() && self.chunks@[i as int].chunk_id == chunk_id,
                None => !has_chunk(self.chunks@, chunk_id),
            },
    {
        let mut i: usize = 0;
        while i < self.chunks.len()
            invariant
                i <= self.chunks@.len(),
                forall|j: int| 0 <= j < i ==> self.chunks@[j].chunk_id != chunk_id,
            decreases self.chunks@.len() - i,
        {
            if self.chunks[i].chunk_id == chunk_id {
                return Some(i);
            }
            i = i + 1;
        }
        None
    }

    /// Whether a video segment file exists for every chunk; `present[i]`
    /// tells whether chunk `i`'s segment exists.
    pub fn video_chunks_exist(&self, present: &Vec<bool>) -> (r: bool)
        ensures
            r == all_segments_present(present@, self.chunk_count as nat),
    {
        let mut i: usize = 0;
        while i < self.chunk_count
            invariant
                i <= self.chunk_count,
                forall|j: int| 0 <= j < i ==> #[trigger] segment_present(present@, j),
            decreases self.chunk_count - i,
        {
            if i >= present.len() || !present[i] {
                assert(!segment_present(present@, i as int));
                return false;
            }
            i = i + 1;
        }
        true
    }

    /// Whether every chunk is tracked and completed.
    pub fn all_chunks_completed(&self) -> (r: bool)
        ensures
            r == (self.chunks@.len() == self.chunk_count && forall|i: int|
                0 <= i < self.chunks@.len() ==> (#[trigger] self.chunks@[i]).status
                    == ChunkProcessingStatus::Completed),
    {
        if self.chunks.len() != self.chunk_count {
            return false;
        }
        let mut i: usize = 0;
        while i < self.chunks.len()
            invariant
                i <= self.chunks@.len(),
                forall|j: int| 0 <= j < i ==> (#[trigger] self.chunks@[j]).status
                    == ChunkProcessingStatus::Completed,
            decreases self.chunks@.len() - i,
        {
            if self.chunks[i].status != ChunkProcessingStatus::Completed {
                return false;
            }
            i = i + 1;
        }
        true
    }

    /// The phase a run can resume from: 3 when every chunk is completed, 2
    /// when every video segment exists, 1 otherwise.
    pub fn can_resume_from_phase(&self, present: &Vec<bool>) -> (r: u8)
        ensures
            r == if self.chunks@.len() == self.chunk_count && forall|i: int|
                0 <= i < self.chunks@.len() ==> (#[trigger] self.chunks@[i]).status
                    == ChunkProcessingStatus::Completed {
                3u8
            } else if all_segments_present(present@, self.chunk_count as nat) {
                2u8
            } else {
                1u8
            },
    {
        if self.all_chunks_completed() {
            return 3;
        }
        if self.video_chunks_exist(present) {
            return 2;
        }
        1
    }

    /// Chunks still to extract, in order: tracked ones not completed, and
    /// untracked ones whose sidecar is missing or has fewer than
    /// `MIN_SIDECAR_LINES` lines (`sidecar_lines[i]` is the line count of
    /// chunk `i`'s sidecar, `None` where it is missing).
    pub fn get_incomplete_chunks(&self, sidecar_lines: &Vec<Option<usize>>) -> (r: Vec<usize>)
        requires
            self.wf(),
        ensures
            r@ == incomplete_spec(self.chunks@, sidecar_lines@, self.chunk_count as nat),
    {
        let mut out: Vec<usize> = Vec::new();
        let mut i: usize = 0;
        while i < self.chunk_count
            invariant
                self.wf(),
                i <= self.chunk_count,
                out@ == incomplete_spec(self.chunks@, sidecar_lines@, i as nat),
            decreases self.chunk_count - i,
        {
            let incomplete = match self.find_chunk(i) {
                Some(k) => {
                    proof {
                        assert(has_chunk(self.chunks@, i));
                    }
                    let st = self.chunks[k].status;
                    if st != ChunkProcessingStatus::Completed {
                        true
                    } else {
                        proof {
                            assert forall|q: int|
                                0 <= q < self.chunks@.len() && #[trigger] self.chunks@[q].chunk_id
                                    == i implies self.chunks@[q].status
                                == ChunkProcessingStatus::Completed by {
                                if q != k {
                                    if q < k {
                                        assert(self.chunks@[q].chunk_id != self.chunks@[k as int].chunk_id);
                                    } else {
                                        assert(self.chunks@[k as int].chunk_id != self.chunks@[q].chunk_id);
                                    }
                                }
                            }
                        }
                        false
                    }
                },
                None => {
                    if i >= sidecar_lines.len() {
                        true
                    } else {
                        match sidecar_lines[i] {
                            None => true,
                            Some(lines) => lines < MIN_SIDECAR_LINES,
                        }
                    }
                },
            };
            if incomplete {
                out.push(i);
            }
            i = i + 1;
        }
        out
    }
}

impl ResumeState {
    /// Records a chunk's progress at time `now`: the chunk's entry gets
    /// `frame`, `qr_codes` and `status`, and is created (with its file names
    /// and no error) if it was not tracked.
    pub fn update_chunk_progress(
        &mut self,
        chunk_id: usize,
        frame: u64,
        qr_codes: usize,
        status: ChunkProcessingStatus,
        now: u64,
    )
        requires
            old(self).wf(),
            chunk_id < u64::MAX,
        ensures
            final(self).wf(),
            final(self).last_update == now,
            same_settings(*old(self), *final(self)),
            has_chunk(old(self).chunks@, chunk_id) ==> final(self).chunks@.len() == old(self).chunks@.len(),
            !has_chunk(old(self).chunks@, chunk_id) ==> final(self).chunks@.len() == old(self).chunks@.len() + 1
                && final(self).chunks@.last().chunk_id == chunk_id
                && final(self).chunks@.last().video_file@ == segment_name_spec(chunk_id as nat)
                && final(self).chunks@.last().jsonl_file@ == sidecar_name_spec(chunk_id as nat)
                && final(self).chunks@.last().processing_time_ms == 0
                && final(self).chunks@.last().error_count == 0
                && final(self).chunks@.last().last_error.is_none(),
            forall|i: int|
                0 <= i < final(self).chunks@.len() ==> if (#[trigger] final(self).chunks@[i]).chunk_id
                    == chunk_id {
                    final(self).chunks@[i].last_frame_processed == frame
                        && final(self).chunks@[i].qr_codes_found == qr_codes
                        && final(self).chunks@[i].status == status && (i < old(self).chunks@.len()
                        ==> final(self).chunks@[i].video_file == old(self).chunks@[i].video_file
                        && final(self).chunks@[i].jsonl_file == old(self).chunks@[i].jsonl_file
                        && final(self).chunks@[i].processing_time_ms == old(self).chunks@[i].processing_time_ms
                        && final(self).chunks@[i].error_count == old(self).chunks@[i].error_count
                        && final(self).chunks@[i].last_error == old(self).chunks@[i].last_error)
                } else {
                    final(self).chunks@[i] == old(self).chunks@[i]
                },
    {
        match self.find_chunk(chunk_id) {
            Some(k) => {
                let ghost before = self.chunks@;
                let mut c = self.chunks.remove(k);
                c.last_frame_processed = frame;
                c.qr_codes_found = qr_codes;
                c.status = status;
                self.chunks.insert(k, c);
                proof {
                    assert forall|i: int| 0 <= i < self.chunks@.len() && i != k implies self.chunks@[i]
                        == before[i] by {}
                    assert forall|i: int, j: int|
                        0 <= i < j < self.chunks@.len() implies self.chunks@[i].chunk_id
                        != self.chunks@[j].chunk_id by {
                        assert(before[i].chunk_id != before[j].chunk_id);
                    }
                    assert forall|i: int|
                        0 <= i < self.chunks@.len() && #[trigger] self.chunks@[i].chunk_id == chunk_id
                        implies i == k by {
                        if i != k {
                            if i < k {
                                assert(before[i].chunk_id != before[k as int].chunk_id);
                            } else {
                                assert(before[k as int].chunk_id != before[i].chunk_id);
                            }
                        }
                    }
                }
            },
            None => {
                let c = ChunkState {
                    chunk_id,
                    video_file: segment_file_name(chunk_id),
                    jsonl_file: sidecar_file_name(chunk_id),
                    status,
                    last_frame_processed: frame,
                    qr_codes_found: qr_codes,
                    processing_time_ms: 0,
                    error_count: 0,
                    last_error: None,
                };
                self.chunks.push(c);
            },
        }
        self.last_update = now;
    }

    /// Records an error of a tracked chunk: one more error, the message kept,
    /// status failed. An untracked chunk is left alone.
    pub fn mark_chunk_error(&mut self, chunk_id: usize, error: String)
        requires
            old(self).wf(),
        ensures
            final(self).wf(),
            same_settings(*old(self), *final(self)),
            final(self).last_update == old(self).last_update,
            final(self).chunks@.len() == old(self).chunks@.len(),
            !has_chunk(old(self).chunks@, chunk_id) ==> final(self).chunks@ == old(self).chunks@,
            forall|i: int|
                0 <= i < final(self).chunks@.len() ==> if (#[trigger] old(self).chunks@[i]).chunk_id
                    == chunk_id {
                    final(self).chunks@[i].status == ChunkProcessingStatus::Failed
                        && final(self).chunks@[i].video_file == old(self).chunks@[i].video_file
                        && final(self).chunks@[i].jsonl_file == old(self).chunks@[i].jsonl_file
                        && final(self).chunks@[i].processing_time_ms == old(self).chunks@[i].processing_time_ms
                        && final(self).chunks@[i].error_count == (if old(self).chunks@[i].error_count
                        < usize::MAX {
                        old(self).chunks@[i].error_count + 1
                    } else {
                        old(self).chunks@[i].error_count as int
                    }) && final(self).chunks@[i].last_error == Some(error)
                        && final(self).chunks@[i].chunk_id == chunk_id
                        && final(self).chunks@[i].last_frame_processed == old(self).chunks@[i].last_frame_processed
                        && final(self).chunks@[i].qr_codes_found == old(self).chunks@[i].qr_codes_found
                } else {
                    final(self).chunks@[i] == old(self).chunks@[i]
                },
    {
        match self.find_chunk(chunk_id) {
            Some(k) => {
                let ghost before = self.chunks@;
                let mut c = self.chunks.remove(k);
                if c.error_count < usize::MAX {
                    c.error_count = c.error_count + 1;
                }
                c.last_error = Some(error);
                c.status = ChunkProcessingStatus::Failed;
                self.chunks.insert(k, c);
                proof {
                    assert forall|i: int|
                        0 <= i < self.chunks@.len() && #[trigger] before[i].chunk_id == chunk_id implies i
                        == k by {
                        if i != k {
                            if i < k {
                                assert(before[i].chunk_id != before[k as int].chunk_id);
                            } else {
                                assert(before[k as int].chunk_id != before[i].chunk_id);
                            }
                        }
                    }
                    assert forall|i: int, j: int|
                        0 <= i < j < self.chunks@.len() implies self.chunks@[i].chunk_id
                        != self.chunks@[j].chunk_id by {
                        assert(before[i].chunk_id != before[j].chunk_id);
                    }
                }
            },
            None => {
                proof {
                    assert(self.chunks@ =~= old(self).chunks@);
                }
            },
        }
    }

    /// Whether chunk `chunk_id` is to be processed, and from which frame:
    /// completed chunks are not; processing or interrupted ones go on after
    /// their last frame; failed, unstarted and untracked ones start over.
    pub fn can_resume_chunk(&self, chunk_id: usize) -> (r: (bool, u64))
        requires
            self.wf(),
        ensures
            !has_chunk(self.chunks@, chunk_id) ==> r == (true, 0u64),
            forall|i: int|
                0 <= i < self.chunks@.len() && #[trigger] self.chunks@[i].chunk_id == chunk_id ==> r
                    == match self.chunks@[i].status {
                    ChunkProcessingStatus::Completed => (false, 0u64),
                    ChunkProcessingStatus::Processing | ChunkProcessingStatus::Interrupted => (
                        true,
                        self.chunks@[i].last_frame_processed,
                    ),
                    _ => (true, 0u64),
                },
    {
        match self.find_chunk(chunk_id) {
            Some(k) => {
                proof {
                    assert forall|i: int|
                        0 <= i < self.chunks@.len() && #[trigger] self.chunks@[i].chunk_id == chunk_id implies i
                        == k by {
                        if i != k {
                            if i < k {
                                assert(self.chunks@[i].chunk_id != self.chunks@[k as int].chunk_id);
                            } else {
                                assert(self.chunks@[k as int].chunk_id != self.chunks@[i].chunk_id);
                            }
                        }
                    }
                }
                match self.chunks[k].status {
                    ChunkProcessingStatus::Completed => (false, 0),
                    ChunkProcessingStatus::Processing | ChunkProcessingStatus::Interrupted => (
                        true,
                        self.chunks[k].last_frame_processed,
                    ),
                    _ => (true, 0),
                }
            },
            None => (true, 0),
        }
    }

    /// A one-line summary: completed, processing and failed chunks, and QR
    /// codes found.
    pub fn get_progress_summary(&self) -> (r: String)
        ensures
            r@ == summary_text(
                count_status(self.chunks@, ChunkProcessingStatus::Completed),
                self.chunk_count as nat,
                count_status(self.chunks@, ChunkProcessingStatus::Processing),
                count_status(self.chunks@, ChunkProcessingStatus::Failed),
                total_qr(self.chunks@),
            ),
    {
        let ghost cs = self.chunks@;
        let mut completed: u64 = 0;
        let mut processing: u64 = 0;
        let mut failed: u64 = 0;
        let mut qr: u64 = 0;
        let mut i: usize = 0;
        while i < self.chunks.len()
            invariant
                cs == self.chunks@,
                i <= cs.len(),
                completed == count_status(cs.subrange(0, i as int), ChunkProcessingStatus::Completed),
                processing == count_status(cs.subrange(0, i as int), ChunkProcessingStatus::Processing),
                failed == count_status(cs.subrange(0, i as int), ChunkProcessingStatus::Failed),
                qr == total_qr(cs.subrange(0, i as int)),
                completed <= i && processing <= i && failed <= i,
            decreases cs.len() - i,
        {
            proof {
                let p = cs.subrange(0, i + 1);
                assert(p.drop_last() =~= cs.subrange(0, i as int));
                assert(p.last() == cs[i as int]);
            }
            let st = self.chunks[i].status;
            if st == ChunkProcessingStatus::Completed {
                completed = completed + 1;
            }
            if st == ChunkProcessingStatus::Processing {
                processing = processing + 1;
            }
            if st == ChunkProcessingStatus::Failed {
                failed = failed + 1;
            }
            let found = self.chunks[i].qr_codes_found as u64;
            if qr > u64::MAX - found {
                qr = u64::MAX;
            } else {
                qr = qr + found;
            }
            i = i + 1;
        }
        assert(cs.subrange(0, cs.len() as int) =~= cs);
        let mut out = String::from_str("Chunks: ");
        push_decimal(&mut out, completed);
        out.append("/");
        push_decimal(&mut out, self.chunk_count as u64);
        out.append(" completed, ");
        push_decimal(&mut out, processing);
        out.append(" processing, ");
        push_decimal(&mut out, failed);
        out.append(" failed | QR codes: ");
        push_decimal(&mut out, qr);
        out
    }
}

impl ResumeState {
    /// On interruption: every chunk being processed becomes interrupted, so
    /// that a resumed run goes on from its last frame.
    pub fn mark_interrupted(&mut self)
        requires
            old(self).wf(),
        ensures
            final(self).wf(),
            same_settings(*old(self), *final(self)),
            final(self).last_update == old(self).last_update,
            final(self).chunks@.len() == old(self).chunks@.len(),
            forall|i: int|
                0 <= i < final(self).chunks@.len() ==> if (#[trigger] old(self).chunks@[i]).status
                    == ChunkProcessingStatus::Processing {
                    final(self).chunks@[i] == (ChunkState {
                        status: ChunkProcessingStatus::Interrupted,
                        ..old(self).chunks@[i]
                    })
                } else {
                    final(self).chunks@[i] == old(self).chunks@[i]
                },
    {
        let ghost before = self.chunks@;
        let mut i: usize = 0;
        while i < self.chunks.len()
            invariant
                i <= self.chunks@.len(),
                self.chunks@.len() == before.len(),
                same_settings(*old(self), *self),
                self.last_update == old(self).last_update,
                forall|j: int| i <= j < before.len() ==> self.chunks@[j] == before[j],
                forall|j: int|
                    0 <= j < i ==> if (#[trigger] before[j]).status == ChunkProcessingStatus::Processing {
                        self.chunks@[j] == (ChunkState {
                            status: ChunkProcessingStatus::Interrupted,
                            ..before[j]
                        })
                    } else {
                        self.chunks@[j] == before[j]
                    },
                forall|j: int| 0 <= j < before.len() ==> self.chunks@[j].chunk_id == before[j].chunk_id,
                ids_distinct(before),
            decreases before.len() - i,
        {
            if self.chunks[i].status == ChunkProcessingStatus::Processing {
                let mut c = self.chunks.remove(i);
                c.status = ChunkProcessingStatus::Interrupted;
                self.chunks.insert(i, c);
            }
            i = i + 1;
        }
        assert forall|a: int, b: int| 0 <= a < b < self.chunks@.len() implies self.chunks@[a].chunk_id
            != self.chunks@[b].chunk_id by {
            assert(before[a].chunk_id != before[b].chunk_id);
        }
    }
}

} // verus!
