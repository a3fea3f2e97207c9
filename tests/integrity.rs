use std::cell::RefCell;
use std::hash::Hasher;

use base64::Engine;
use qr_video_extractor::checksum::{bytes_hex, calculate_checksum, hex_text};
use qr_video_extractor::events::{EventBus, OutputHandler, ProcessingEvent};
use qr_video_extractor::fountain::FileOutcome;
use qr_video_extractor::integrity::{integrity_record, FinalReport};
use qr_video_extractor::router::{ProcessResult, QRFileDecoder};

#[test]
fn digests_of_abc() {
    let r = integrity_record(b"abc", Some("1a47e90b".to_string()), "out/abc".to_string());
    assert_eq!(r.md5, "900150983cd24fb0d6963f7d28e17f72");
    assert_eq!(r.sha1, "a9993e364706816aba3e25717850c26c9cd0d89d");
    assert_eq!(r.sha256, "ba7816bf8f01cfea414140de5dae2223b00361a396177a9cb410ff61f20015ad");
    assert_eq!(r.crc32, "352441c2");
    assert_eq!(r.qr_checksum, "1a47e90b");
    assert_eq!(r.size, 3);
    assert_eq!(r.file_path, "out/abc");
}

#[test]
fn fallback_checksum_is_fnv64_of_length_and_data() {
    let mut h = fnv::FnvHasher::default();
    h.write(&3u64.to_le_bytes());
    h.write(b"abc");
    let r = integrity_record(b"abc", None, String::new());
    assert_eq!(r.qr_checksum, format!("{:x}", h.finish()));
}

#[test]
fn fallback_checksums_differ() {
    let a = integrity_record(b"abc", None, String::new());
    let b = integrity_record(b"abd", None, String::new());
    assert!(!a.qr_checksum.is_empty() && a.qr_checksum.len() <= 16);
    assert_ne!(a.qr_checksum, b.qr_checksum);
    assert!(a.qr_checksum.chars().all(|c| c.is_ascii_hexdigit() && !c.is_ascii_uppercase()));
}

#[test]
fn hex_rendering() {
    assert_eq!(hex_text(0), "0");
    assert_eq!(hex_text(255), "ff");
    assert_eq!(hex_text(0x0abc_1234), "abc1234");
    assert_eq!(bytes_hex(&[0x00, 0x0f, 0xa0]), "000fa0");
}

struct Recorder {
    seen: RefCell<Vec<String>>,
}

impl OutputHandler for Recorder {
    fn handle_event(&self, event: &ProcessingEvent) {
        if let ProcessingEvent::PhaseStarted { description, .. } = event {
            self.seen.borrow_mut().push(description.clone());
        }
    }
}

#[test]
fn event_bus_reaches_every_observer() {
    let mut bus = EventBus::new();
    bus.subscribe(Recorder { seen: RefCell::new(Vec::new()) });
    bus.subscribe(Recorder { seen: RefCell::new(Vec::new()) });
    assert_eq!(bus.observer_count(), 2);
    bus.emit(ProcessingEvent::PhaseStarted { phase: 1, description: "plan".to_string() });
    bus.emit(ProcessingEvent::PhaseStarted { phase: 2, description: "extract".to_string() });
    let empty: EventBus<Recorder> = EventBus::new();
    empty.emit(ProcessingEvent::Error { phase: 1, error: "none".to_string() });
    assert_eq!(empty.observer_count(), 0);
}

/// Packets as a transmitter makes them: systematic chunks, then the XOR of
/// every pair of neighbouring chunks.
fn transmit(name: &str, data: &[u8], chunk_size: usize, skip: &[usize]) -> Vec<String> {
    let b64 = base64::engine::general_purpose::STANDARD;
    let chunks: Vec<Vec<u8>> = data.chunks(chunk_size).map(|c| c.to_vec()).collect();
    let mut out = vec![format!(
        "M:1:{}:application%2Foctet-stream:{}:{}:0:0:0:0:{}:0:L:{}:",
        name,
        data.len(),
        chunks.len(),
        chunk_size,
        calculate_checksum(data)
    )];
    for (i, c) in chunks.iter().enumerate() {
        if !skip.contains(&i) {
            out.push(format!("D:{}:0:0:{}:1:{}:{}", i, chunks.len(), i, b64.encode(c)));
        }
    }
    for i in 0..chunks.len().saturating_sub(1) {
        let mut x = vec![0u8; chunk_size];
        for (j, b) in chunks[i].iter().enumerate() {
            x[j] ^= b;
        }
        for (j, b) in chunks[i + 1].iter().enumerate() {
            x[j] ^= b;
        }
        out.push(format!("D:{}:0:0:{}:2:{},{}:{}", 100 + i, chunks.len(), i, i + 1, b64.encode(&x)));
    }
    out
}

#[test]
fn round_trip_through_a_transmitter() {
    let data: Vec<u8> = (0..1000u32).map(|i| (i * 7 + i / 3) as u8).collect();
    // chunks 3 and 7 are never sent as they are
    let stream = transmit("data.bin", &data, 64, &[3, 7]);
    let mut d = QRFileDecoder::new();
    let files: Vec<Vec<u8>> = d
        .process_all(&stream)
        .into_iter()
        .filter_map(|r| match r {
            ProcessResult::Data { completed: Some(FileOutcome::Reconstructed { data, .. }), .. } => Some(data),
            _ => None,
        })
        .collect();
    assert_eq!(files, vec![data]);
}

#[test]
fn report_keys_stay_distinct() {
    let mut r = FinalReport::new("now".to_string(), "out".to_string());
    r.insert("a".to_string(), integrity_record(b"x", None, "first".to_string()));
    r.insert("b".to_string(), integrity_record(b"y", None, "second".to_string()));
    r.insert("a".to_string(), integrity_record(b"z", None, "third".to_string()));
    assert_eq!(r.files.len(), 2);
    assert_eq!(r.files[0].0, "a");
    assert_eq!(r.files[0].1.file_path, "third");
}
