//! Whether a chunk's sidecar shows the chunk fully extracted, and where an
//! unfinished chunk resumes.

use vstd::prelude::*;
use std::collections::HashSet;
use crate::plan::VideoChunk;

verus! {

broadcast use vstd::std_specs::hash::group_hash_axioms;

/// Thresholds of the completion criteria, percentages as whole numbers.
#[derive(Clone, Copy, Debug, PartialEq, Eq, Structural)]
pub struct CompletionThresholds {
    /// Frame coverage for a complete chunk.
    pub complete_frame_pct: u64,
    /// Frame coverage for an adequate chunk (with enough QR codes).
    pub adequate_frame_pct: u64,
    /// Coverage of the expected frame range by the highest frame seen.
    pub range_pct: u64,
    /// Span between lowest and highest frame seen.
    pub span_pct: u64,
    /// QR codes needed in a chunk other than the last.
    pub min_qr_codes: u64,
    /// QR codes needed in the last chunk.
    pub min_qr_codes_last: u64,
}

impl CompletionThresholds {
    /// 95% frames, 80% adequate, 90% range, 80% span, 300 QR codes (200 in
    /// the last chunk).
    pub fn standard() -> (r: Self)
        ensures
            r == (CompletionThresholds {
                complete_frame_pct: 95,
                adequate_frame_pct: 80,
                range_pct: 90,
                span_pct: 80,
                min_qr_codes: 300,
                min_qr_codes_last: 200,
            }),
    {
        CompletionThresholds {
            complete_frame_pct: 95,
            adequate_frame_pct: 80,
            range_pct: 90,
            span_pct: 80,
            min_qr_codes: 300,
            min_qr_codes_last: 200,
        }
    }
}

/// What a sidecar holds, as far as completion is concerned.
#[derive(Clone, Copy, Debug, PartialEq, Eq, Structural)]
pub struct SidecarStats {
    /// Observation lines.
    pub qr_codes: u64,
    /// Distinct frame numbers among them.
    pub distinct_frames: u64,
    /// Highest frame number (zero without observations).
    pub max_frame: u64,
    /// Lowest frame number (zero without observations).
    pub min_frame: u64,
}

#[derive(Clone, Copy, Debug, PartialEq, Eq, Structural)]
pub enum CompletionStatus {
    /// All criteria met.
    Complete,
    /// Enough frames and QR codes to be used, though not all criteria met.
    Adequate,
    Incomplete,
}

pub open spec fn seq_max(s: Seq<u64>) -> u64
    decreases s.len(),
{
    if s.len() == 0 {
        0
    } else {
        let m = seq_max(s.drop_last());
        if s.len() == 1 || s.last() > m {
            s.last()
        } else {
            m
        }
    }
}

pub open spec fn seq_min(s: Seq<u64>) -> u64
    decreases s.len(),
{
    if s.len() == 0 {
        0
    } else {
        let m = seq_min(s.drop_last());
        if s.len() == 1 || s.last() < m {
            s.last()
        } else {
            m
        }
    }
}

/// The statistics of a sidecar whose observations carry `frames`.
pub open spec fn stats_of(frames: Seq<u64>) -> SidecarStats {
    SidecarStats {
        qr_codes: frames.len() as u64,
        distinct_frames: frames.to_set().len() as u64,
        max_frame: seq_max(frames),
        min_frame: seq_min(frames),
    }
}

/// Statistics of a sidecar from the frame numbers of its observations.
pub fn analyze_frames(frames: &Vec<u64>) -> (r: SidecarStats)
    ensures
        r == stats_of(frames@),
{
    let mut seen: HashSet<u64> = HashSet::new();
    let mut max: u64 = 0;
    let mut min: u64 = 0;
    let mut i: usize = 0;
    while i < frames.len()
        invariant
            i <= frames@.len(),
            seen@ == frames@.subrange(0, i as int).to_set(),
            max == seq_max(frames@.subrange(0, i as int)),
            min == seq_min(frames@.subrange(0, i as int)),
        decreases frames@.len() - i,
    {
        let f = frames[i];
        proof {
            let p = frames@.subrange(0, i + 1);
            assert(p.drop_last() =~= frames@.subrange(0, i as int));
            assert(p.last() == f);
            assert(p.to_set() =~= frames@.subrange(0, i as int).to_set().insert(f)) by {
                assert forall|x: u64| p.contains(x) <==> (frames@.subrange(0, i as int).contains(x)
                    || x == f) by {
                    if p.contains(x) {
                        let k = choose|k: int| 0 <= k < p.len() && p[k] == x;
                        if k < i {
                            assert(frames@.subrange(0, i as int)[k] == x);
                        }
                    }
                    if frames@.subrange(0, i as int).contains(x) {
                        let k = choose|k: int| 0 <= k < i && frames@.subrange(0, i as int)[k] == x;
                        assert(p[k] == x);
                    }
                    if x == f {
                        assert(p[i as int] == x);
                    }
                }
            }
        }
        seen.insert(f);
        if i == 0 || f > max {
            max = f;
        }
        if i == 0 || f < min {
            min = f;
        }
        i = i + 1;
    }
    assert(frames@.subrange(0, frames@.len() as int) =~= frames@);
    proof {
        lemma_to_set_len_le(frames@);
    }
    SidecarStats {
        qr_codes: frames.len() as u64,
        distinct_frames: seen.len() as u64,
        max_frame: max,
        min_frame: min,
    }
}

proof fn lemma_to_set_len_le(s: Seq<u64>)
    ensures
        s.to_set().len() <= s.len(),
{
    s.lemma_cardinality_of_set();
}

/// `num / den >= pct / 100`, where a zero `den` counts as met only for a
/// positive `num`.
pub open spec fn ratio_at_least(num: u64, den: u64, pct: u64) -> bool {
    if den == 0 {
        num > 0
    } else {
        num as int * 100 >= pct as int * den as int
    }
}

proof fn lemma_u64_product(a: u64, b: u64)
    ensures
        0 <= a as int * b as int <= u128::MAX,
{
    assert(0 <= a as int * b as int <= u128::MAX) by (nonlinear_arith)
        requires
            0 <= a <= u64::MAX,
            0 <= b <= u64::MAX,
    ;
}

fn ratio_at_least_exec(num: u64, den: u64, pct: u64) -> (r: bool)
    ensures
        r == ratio_at_least(num, den, pct),
{
    proof {
        lemma_u64_product(pct, den);
    }
    if den == 0 {
        num > 0
    } else {
        (num as u128) * 100 >= (pct as u128) * (den as u128)
    }
}

/// Highest frame number the chunk is expected to reach, with every
/// `skip_frames + 1`-th frame processed.
pub open spec fn expected_max_frame(expected_frames: u64, skip_frames: u64) -> u64 {
    if skip_frames > 0 {
        (expected_frames as int / (skip_frames as int + 1)) as u64
    } else {
        expected_frames
    }
}

/// The completion criteria applied to a chunk's statistics.
pub open spec fn completion_spec(
    stats: SidecarStats,
    expected_frames: u64,
    skip_frames: u64,
    is_last: bool,
    th: CompletionThresholds,
) -> CompletionStatus {
    let emf = expected_max_frame(expected_frames, skip_frames);
    let frames_ok = ratio_at_least(stats.distinct_frames, expected_frames, th.complete_frame_pct);
    let frames_adequate = ratio_at_least(
        stats.distinct_frames,
        expected_frames,
        th.adequate_frame_pct,
    );
    let range_ok = emf > 0 && ratio_at_least(stats.max_frame, emf, th.range_pct);
    let min_qr = if is_last {
        th.min_qr_codes_last
    } else {
        th.min_qr_codes
    };
    let qr_ok = stats.qr_codes >= min_qr;
    let span = if stats.max_frame >= stats.min_frame {
        (stats.max_frame - stats.min_frame) as u64
    } else {
        0
    };
    let span_ok = span as int * 100 >= th.span_pct as int * emf as int;
    if frames_ok && range_ok && qr_ok && span_ok {
        CompletionStatus::Complete
    } else if frames_adequate && qr_ok {
        CompletionStatus::Adequate
    } else {
        CompletionStatus::Incomplete
    }
}

/// Applies the completion criteria to a chunk's statistics.
pub fn determine_completion(
    stats: SidecarStats,
    expected_frames: u64,
    skip_frames: u64,
    is_last: bool,
    th: CompletionThresholds,
) -> (r: CompletionStatus)
    ensures
        r == completion_spec(stats, expected_frames, skip_frames, is_last, th),
{
    let emf = if skip_frames > 0 {
        ((expected_frames as u128) / (skip_frames as u128 + 1)) as u64
    } else {
        expected_frames
    };
    let frames_ok = ratio_at_least_exec(stats.distinct_frames, expected_frames, th.complete_frame_pct);
    let frames_adequate = ratio_at_least_exec(
        stats.distinct_frames,
        expected_frames,
        th.adequate_frame_pct,
    );
    let range_ok = emf > 0 && ratio_at_least_exec(stats.max_frame, emf, th.range_pct);
    let min_qr = if is_last {
        th.min_qr_codes_last
    } else {
        th.min_qr_codes
    };
    let qr_ok = stats.qr_codes >= min_qr;
    let span = if stats.max_frame >= stats.min_frame {
        stats.max_frame - stats.min_frame
    } else {
        0
    };
    proof {
        lemma_u64_product(th.span_pct, emf);
    }
    let span_ok = (span as u128) * 100 >= (th.span_pct as u128) * (emf as u128);
    if frames_ok && range_ok && qr_ok && span_ok {
        CompletionStatus::Complete
    } else if frames_adequate && qr_ok {
        CompletionStatus::Adequate
    } else {
        CompletionStatus::Incomplete
    }
}

/// Whether a status lets the chunk count as done.
pub open spec fn is_done(s: CompletionStatus) -> bool {
    s != CompletionStatus::Incomplete
}

/// The first frame at or after `frame` that the stride processes.
pub open spec fn aligned_frame(frame: int, skip_frames: u64) -> int {
    let stride = skip_frames as int + 1;
    ((frame + stride - 1) / stride) * stride
}

/// Frame number at `t_ms` for a frame rate of `fps_num / fps_den`.
pub open spec fn frame_at(t_ms: u64, fps_num: u64, fps_den: u64) -> int {
    (t_ms as int * fps_num as int) / (1000 * fps_den as int)
}

/// The frame number at `t_ms`: `floor(t_ms / 1000 * fps)`.
pub fn frame_index(t_ms: u64, fps_num: u64, fps_den: u64) -> (r: u64)
    requires
        fps_den > 0,
        frame_at(t_ms, fps_num, fps_den) <= u64::MAX,
    ensures
        r == frame_at(t_ms, fps_num, fps_den),
{
    proof {
        let big: int = 0x1_0000_0000_0000_0000;
        assert((t_ms as int) * (fps_num as int) < big * big) by (nonlinear_arith)
            requires
                t_ms < big,
                fps_num < big,
        ;
        assert(0 <= (t_ms as int) * (fps_num as int)) by (nonlinear_arith);
    }
    ((t_ms as u128) * (fps_num as u128) / (1000u128 * (fps_den as u128))) as u64
}

/// Whether frame `frame` is one the stride processes: every
/// `skip_frames + 1`-th frame, counting from zero.
pub fn is_stride_frame(frame: u64, skip_frames: u64) -> (r: bool)
    ensures
        r == (frame as int % (skip_frames as int + 1) == 0),
{
    if skip_frames == u64::MAX {
        frame == 0
    } else {
        frame % (skip_frames + 1) == 0
    }
}

/// Frames expected in a chunk: those between its start and its end.
pub fn expected_chunk_frames(chunk: &VideoChunk, fps_num: u64, fps_den: u64) -> (r: u64)
    requires
        fps_den > 0,
        chunk.start_ms <= chunk.end_ms,
        frame_at(chunk.end_ms, fps_num, fps_den) <= u64::MAX,
    ensures
        r == frame_at(chunk.end_ms, fps_num, fps_den) - frame_at(chunk.start_ms, fps_num, fps_den),
{
    let den = 1000u128 * (fps_den as u128);
    proof {
        let big: int = 0x1_0000_0000_0000_0000;
        assert((chunk.end_ms as int) * (fps_num as int) < big * big) by (nonlinear_arith)
            requires
                chunk.end_ms < big,
                fps_num < big,
        ;
        assert((chunk.start_ms as int) * (fps_num as int) <= (chunk.end_ms as int) * (
        fps_num as int)) by (nonlinear_arith)
            requires
                chunk.start_ms <= chunk.end_ms,
        ;
        vstd::arithmetic::div_mod::lemma_div_is_ordered(
            (chunk.start_ms as int) * (fps_num as int),
            (chunk.end_ms as int) * (fps_num as int),
            den as int,
        );
        vstd::arithmetic::div_mod::lemma_div_pos_is_pos(
            (chunk.start_ms as int) * (fps_num as int),
            den as int,
        );
    }
    let end = (chunk.end_ms as u128) * (fps_num as u128) / den;
    let start = (chunk.start_ms as u128) * (fps_num as u128) / den;
    (end - start) as u64
}

/// Where an unfinished chunk goes on, given what its sidecar shows.
#[derive(Clone, Copy, Debug, PartialEq, Eq, Structural)]
pub struct ChunkResumePoint {
    pub chunk_id: usize,
    pub should_resume: bool,
    pub resume_from_frame: u64,
    pub frames_already_processed: u64,
    pub qr_codes_already_found: u64,
    pub completion_status: CompletionStatus,
}

/// The resume point of chunk `chunk_id`: none needed when complete;
/// otherwise from the first stride-aligned frame after the highest one
/// seen, or from the start when the sidecar has no observation.
pub open spec fn resume_point_spec(
    chunk_id: usize,
    stats: Option<SidecarStats>,
    expected_frames: u64,
    skip_frames: u64,
    is_last: bool,
    th: CompletionThresholds,
) -> ChunkResumePoint {
    match stats {
        None => ChunkResumePoint {
            chunk_id,
            should_resume: true,
            resume_from_frame: 0,
            frames_already_processed: 0,
            qr_codes_already_found: 0,
            completion_status: CompletionStatus::Incomplete,
        },
        Some(s) => {
            let status = completion_spec(s, expected_frames, skip_frames, is_last, th);
            let next = s.max_frame as int + 1;
            ChunkResumePoint {
                chunk_id,
                should_resume: !is_done(status),
                resume_from_frame: if is_done(status) {
                    next as u64
                } else {
                    aligned_frame(next, skip_frames) as u64
                },
                frames_already_processed: s.distinct_frames,
                qr_codes_already_found: s.qr_codes,
                completion_status: status,
            }
        },
    }
}

/// The resume point of a chunk from its sidecar statistics (`None` where the
/// sidecar is missing).
pub fn chunk_resume_point(
    chunk_id: usize,
    stats: Option<SidecarStats>,
    expected_frames: u64,
    skip_frames: u64,
    is_last: bool,
    th: CompletionThresholds,
) -> (r: ChunkResumePoint)
    requires
        match stats {
            Some(s) => s.max_frame as int + 1 + skip_frames as int <= u64::MAX,
            None => true,
        },
    ensures
        r == resume_point_spec(chunk_id, stats, expected_frames, skip_frames, is_last, th),
{
    match stats {
        None => ChunkResumePoint {
            chunk_id,
            should_resume: true,
            resume_from_frame: 0,
            frames_already_processed: 0,
            qr_codes_already_found: 0,
            completion_status: CompletionStatus::Incomplete,
        },
        Some(s) => {
            let status = determine_completion(s, expected_frames, skip_frames, is_last, th);
            let next = s.max_frame + 1;
            let done = match status {
                CompletionStatus::Incomplete => false,
                _ => true,
            };
            let from = if done {
                next
            } else {
                let stride = skip_frames + 1;
                proof {
                    let a = next as int + skip_frames as int;
                    vstd::arithmetic::div_mod::lemma_fundamental_div_mod(a, stride as int);
                    vstd::arithmetic::div_mod::lemma_mod_pos_bound(a, stride as int);
                    vstd::arithmetic::mul::lemma_mul_is_commutative(a / stride as int, stride as int);
                    assert((a / stride as int) * stride as int <= a);
                }
                (next + skip_frames) / stride * stride
            };
            ChunkResumePoint {
                chunk_id,
                should_resume: !done,
                resume_from_frame: from,
                frames_already_processed: s.distinct_frames,
                qr_codes_already_found: s.qr_codes,
                completion_status: status,
            }
        },
    }
}

/// A chunk to extract again, and from where.
#[derive(Clone, Copy, Debug, PartialEq, Eq, Structural)]
pub struct ChunkResumeInfo {
    pub chunk_id: usize,
    pub resume_from_frame: u64,
    pub qr_codes_found: u64,
    /// Nothing usable was extracted: the chunk starts over.
    pub needs_full_reprocess: bool,
}

/// The phase a resumed run starts from.
#[derive(Clone, Debug, PartialEq, Eq)]
pub enum ResumePoint {
    /// Plan afresh.
    Phase1,
    /// Extract the listed chunks again.
    Phase2(Vec<ChunkResumeInfo>),
    /// Every chunk is done: go straight to reconstruction.
    Phase3,
}

pub open spec fn resume_info_of(p: ChunkResumePoint) -> ChunkResumeInfo {
    ChunkResumeInfo {
        chunk_id: p.chunk_id,
        resume_from_frame: p.resume_from_frame,
        qr_codes_found: p.qr_codes_already_found,
        needs_full_reprocess: p.resume_from_frame == 0,
    }
}

/// The resume infos of the points that need resuming, in order.
pub open spec fn pending_resumes(ps: Seq<ChunkResumePoint>) -> Seq<ChunkResumeInfo>
    decreases ps.len(),
{
    if ps.len() == 0 {
        Seq::empty()
    } else {
        let prev = pending_resumes(ps.drop_last());
        if ps.last().should_resume {
            prev.push(resume_info_of(ps.last()))
        } else {
            prev
        }
    }
}

/// Where a run resumes from, given every chunk's resume point and whether
/// the video segments of all chunks exist: reconstruction when no chunk needs
/// resuming, extraction of the unfinished chunks when the segments exist,
/// planning otherwise.
pub fn detect_resume_point(points: &Vec<ChunkResumePoint>, segments_exist: bool) -> (r: ResumePoint)
    ensures
        pending_resumes(points@).len() == 0 ==> r == ResumePoint::Phase3,
        pending_resumes(points@).len() > 0 && segments_exist ==> (r matches ResumePoint::Phase2(v)
            && v@ == pending_resumes(points@)),
        pending_resumes(points@).len() > 0 && !segments_exist ==> r == ResumePoint::Phase1,
{
    let mut out: Vec<ChunkResumeInfo> = Vec::new();
    let mut i: usize = 0;
    while i < points.len()
        invariant
            i <= points@.len(),
            out@ == pending_resumes(points@.subrange(0, i as int)),
        decreases points@.len() - i,
    {
        let p = points[i];
        proof {
            let q = points@.subrange(0, i + 1);
            assert(q.drop_last() =~= points@.subrange(0, i as int));
            assert(q.last() == p);
        }
        if p.should_resume {
            out.push(
                ChunkResumeInfo {
                    chunk_id: p.chunk_id,
                    resume_from_frame: p.resume_from_frame,
                    qr_codes_found: p.qr_codes_already_found,
                    needs_full_reprocess: p.resume_from_frame == 0,
                },
            );
        }
        i = i + 1;
    }
    assert(points@.subrange(0, points@.len() as int) =~= points@);
    if out.len() == 0 {
        ResumePoint::Phase3
    } else if segments_exist {
        ResumePoint::Phase2(out)
    } else {
        ResumePoint::Phase1
    }
}

} // verus!
