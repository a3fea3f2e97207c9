use qr_video_extractor::completion::{
    analyze_frames, chunk_resume_point, detect_resume_point, determine_completion,
    expected_chunk_frames, frame_index, is_stride_frame, ChunkResumePoint, CompletionStatus, CompletionThresholds, ResumePoint,
    SidecarStats,
};
use qr_video_extractor::dedup::FrameDeduplicator;
use qr_video_extractor::merge::{merge_sidecars, QrCodeData};
use qr_video_extractor::plan::{split_by_count, split_by_duration, VideoChunk};
use qr_video_extractor::resume_state::{
    sidecar_file_name, ChunkProcessingStatus, ResumeState,
};

fn obs(frame: u64, data: &str, chunk: usize) -> QrCodeData {
    QrCodeData { frame_number: frame, data: data.to_string(), chunk_id: chunk }
}

#[test]
fn plan_by_count_covers_the_video() {
    let p = split_by_count(10_000, 3);
    assert_eq!(
        p,
        vec![
            VideoChunk { id: 0, start_ms: 0, end_ms: 3333 },
            VideoChunk { id: 1, start_ms: 3333, end_ms: 6666 },
            VideoChunk { id: 2, start_ms: 6666, end_ms: 10_000 },
        ]
    );
    assert!(split_by_count(2, 3).iter().any(|c| c.start_ms == c.end_ms));
    assert!(split_by_count(3, 3).iter().all(|c| c.start_ms < c.end_ms));
    let one = split_by_count(5_000, 1);
    assert_eq!(one, vec![VideoChunk { id: 0, start_ms: 0, end_ms: 5_000 }]);
}

#[test]
fn plan_by_duration_shortens_the_last_chunk() {
    let p = split_by_duration(10_000, 4_000);
    assert_eq!(
        p,
        vec![
            VideoChunk { id: 0, start_ms: 0, end_ms: 4_000 },
            VideoChunk { id: 1, start_ms: 4_000, end_ms: 8_000 },
            VideoChunk { id: 2, start_ms: 8_000, end_ms: 10_000 },
        ]
    );
    assert!(split_by_duration(0, 4_000).is_empty());
    assert_eq!(split_by_duration(8_000, 4_000).len(), 2);
}

#[test]
fn merge_orders_by_frame_and_keeps_ties() {
    let a = vec![obs(5, "a5", 0), obs(9, "a9", 0)];
    let b = vec![obs(1, "b1", 1), obs(5, "b5", 1)];
    let m = merge_sidecars(vec![a, b]);
    let order: Vec<&str> = m.iter().map(|o| o.data.as_str()).collect();
    assert_eq!(order, vec!["b1", "a5", "b5", "a9"]);
}

#[test]
fn merge_of_a_single_sidecar() {
    let m = merge_sidecars(vec![vec![obs(3, "x", 0), obs(1, "y", 0), obs(2, "z", 0)]]);
    let frames: Vec<u64> = m.iter().map(|o| o.frame_number).collect();
    assert_eq!(frames, vec![1, 2, 3]);
}

#[test]
fn dedup_suppresses_repeats_within_the_window() {
    let mut d = FrameDeduplicator::new(60);
    assert!(d.observe(0, "p"));
    assert!(!d.observe(1, "p"));
    assert!(d.observe(2, "q"));
    // seen at frame 1, still within 60 frames at 61
    assert!(!d.observe(61, "p"));
    // last seen at 61, so 122 is beyond the window
    assert!(d.observe(122, "p"));
    // frames never go back
    assert!(!d.observe(100, "r"));
    assert!(d.observe(122, "r"));
}

#[test]
fn sidecar_statistics() {
    let s = analyze_frames(&vec![4, 2, 4, 9]);
    assert_eq!(s, SidecarStats { qr_codes: 4, distinct_frames: 3, max_frame: 9, min_frame: 2 });
    let e = analyze_frames(&vec![]);
    assert_eq!(e, SidecarStats { qr_codes: 0, distinct_frames: 0, max_frame: 0, min_frame: 0 });
}

#[test]
fn completion_thresholds() {
    let th = CompletionThresholds::standard();
    let full = SidecarStats { qr_codes: 300, distinct_frames: 95, max_frame: 99, min_frame: 0 };
    assert_eq!(determine_completion(full, 100, 0, false, th), CompletionStatus::Complete);
    let few_qr = SidecarStats { qr_codes: 299, ..full };
    assert_eq!(determine_completion(few_qr, 100, 0, false, th), CompletionStatus::Incomplete);
    assert_eq!(determine_completion(SidecarStats { qr_codes: 200, ..full }, 100, 0, true, th), CompletionStatus::Complete);
    let short_range = SidecarStats { qr_codes: 300, distinct_frames: 85, max_frame: 50, min_frame: 0 };
    assert_eq!(determine_completion(short_range, 100, 0, false, th), CompletionStatus::Adequate);
    let sparse = SidecarStats { qr_codes: 300, distinct_frames: 79, max_frame: 99, min_frame: 0 };
    assert_eq!(determine_completion(sparse, 100, 0, false, th), CompletionStatus::Incomplete);
}

#[test]
fn resume_after_interruption() {
    let th = CompletionThresholds::standard();
    // 500 lines, frames up to 1000 of an expected 3000, every other frame
    let stats = SidecarStats { qr_codes: 500, distinct_frames: 500, max_frame: 1000, min_frame: 0 };
    let p = chunk_resume_point(1, Some(stats), 3000, 1, false, th);
    assert!(p.should_resume);
    assert_eq!(p.resume_from_frame, 1002);
    assert_eq!(p.qr_codes_already_found, 500);
    let none = chunk_resume_point(2, None, 3000, 1, false, th);
    assert_eq!(none.resume_from_frame, 0);
    let done = ChunkResumePoint { should_resume: false, ..p };
    assert_eq!(detect_resume_point(&vec![done, done], false), ResumePoint::Phase3);
    match detect_resume_point(&vec![done, p, none], true) {
        ResumePoint::Phase2(v) => {
            assert_eq!(v.len(), 2);
            assert_eq!(v[0].resume_from_frame, 1002);
            assert!(v[1].needs_full_reprocess);
        }
        _ => panic!("expected phase 2"),
    }
    assert_eq!(detect_resume_point(&vec![p], false), ResumePoint::Phase1);
}

#[test]
fn expected_frames_of_a_chunk() {
    let c = VideoChunk { id: 0, start_ms: 1_000, end_ms: 3_000 };
    assert_eq!(expected_chunk_frames(&c, 30, 1), 60);
    assert_eq!(expected_chunk_frames(&c, 30000, 1001), 60);
    let first = VideoChunk { id: 0, start_ms: 0, end_ms: 1_000 };
    assert_eq!(expected_chunk_frames(&first, 30000, 1001), 29);
}

#[test]
fn sidecar_names() {
    assert_eq!(sidecar_file_name(0), "chunk_001.jsonl");
    assert_eq!(sidecar_file_name(41), "chunk_042.jsonl");
    assert_eq!(sidecar_file_name(1233), "chunk_1234.jsonl");
}

#[test]
fn resume_state_tracks_chunks() {
    let mut s = ResumeState::new("in.mp4", "out", 3, 4, 0, 100);
    assert_eq!(s.can_resume_from_phase(&vec![true, true, true]), 2);
    assert_eq!(s.can_resume_from_phase(&vec![true, false, true]), 1);
    s.update_chunk_progress(0, 10, 120, ChunkProcessingStatus::Completed, 101);
    s.update_chunk_progress(1, 20, 30, ChunkProcessingStatus::Processing, 102);
    assert_eq!(s.chunks[0].jsonl_file, "chunk_001.jsonl");
    assert_eq!(s.chunks[1].video_file, "chunk_002.mp4");
    assert_eq!(s.last_update, 102);
    assert_eq!(s.get_incomplete_chunks(&vec![None, None, Some(150)]), vec![1]);
    assert_eq!(s.get_incomplete_chunks(&vec![None, None, Some(99)]), vec![1, 2]);
    assert_eq!(s.can_resume_chunk(0), (false, 0));
    assert_eq!(s.can_resume_chunk(1), (true, 20));
    s.mark_chunk_error(1, "boom".to_string());
    assert_eq!(s.chunks[1].status, ChunkProcessingStatus::Failed);
    assert_eq!(s.chunks[1].error_count, 1);
    assert_eq!(s.can_resume_chunk(1), (true, 0));
    assert_eq!(s.can_resume_chunk(7), (true, 0));
    assert!(!s.all_chunks_completed());
    assert_eq!(
        s.get_progress_summary(),
        "Chunks: 1/3 completed, 0 processing, 1 failed | QR codes: 150"
    );
    s.update_chunk_progress(1, 30, 40, ChunkProcessingStatus::Completed, 103);
    s.update_chunk_progress(2, 30, 40, ChunkProcessingStatus::Completed, 104);
    assert!(s.all_chunks_completed());
    assert_eq!(s.can_resume_from_phase(&vec![]), 3);
}

#[test]
fn interruption_and_run_identity() {
    let mut s = ResumeState::new("in.mp4", "out", 2, 1, 0, 0);
    assert!(s.matches_run("in.mp4", 2));
    assert!(!s.matches_run("in.mp4", 3));
    assert!(!s.matches_run("other.mp4", 2));
    s.update_chunk_progress(0, 40, 5, ChunkProcessingStatus::Processing, 1);
    s.update_chunk_progress(1, 90, 9, ChunkProcessingStatus::Completed, 2);
    s.mark_interrupted();
    assert_eq!(s.chunks[0].status, ChunkProcessingStatus::Interrupted);
    assert_eq!(s.chunks[1].status, ChunkProcessingStatus::Completed);
    assert_eq!(s.can_resume_chunk(0), (true, 40));
}

#[test]
fn frame_numbers_and_stride() {
    assert_eq!(frame_index(1_000, 30, 1), 30);
    assert_eq!(frame_index(1_500, 30000, 1001), 44);
    assert_eq!(frame_index(0, 25, 1), 0);
    assert!(is_stride_frame(6, 2));
    assert!(!is_stride_frame(7, 2));
    assert!(is_stride_frame(7, 0));
    assert!(is_stride_frame(0, u64::MAX) && !is_stride_frame(1, u64::MAX));
}

#[test]
fn merging_twice_gives_the_same_stream() {
    let make = || vec![vec![obs(2, "a", 0), obs(2, "b", 0)], vec![obs(2, "c", 1), obs(1, "d", 1)]];
    let first: Vec<(u64, String)> = merge_sidecars(make()).into_iter().map(|o| (o.frame_number, o.data)).collect();
    let second: Vec<(u64, String)> = merge_sidecars(make()).into_iter().map(|o| (o.frame_number, o.data)).collect();
    assert_eq!(first, second);
    assert_eq!(first[0].1, "d");
    assert_eq!(first[1].1, "a");
}
