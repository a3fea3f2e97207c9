use qr_video_extractor::checksum::calculate_checksum;
use qr_video_extractor::fountain::FileOutcome;
use qr_video_extractor::packet::{parse_packet, Packet, ParseError};
use qr_video_extractor::router::{ProcessResult, QRFileDecoder, RejectReason};

fn meta(name: &str, size: usize, count: usize, checksum: &str) -> String {
    format!("M:1:{}:application%2Foctet-stream:{}:{}:0:0:0:0:0:0:0:{}:", name, size, count, checksum)
}

fn completed(r: ProcessResult) -> Option<FileOutcome> {
    match r {
        ProcessResult::Data { completed, .. } => completed,
        _ => None,
    }
}

fn reconstructed(o: Option<FileOutcome>) -> (String, Vec<u8>) {
    match o {
        Some(FileOutcome::Reconstructed { file_name, data, .. }) => (file_name, data),
        _ => panic!("no reconstructed file"),
    }
}

#[test]
fn single_systematic_file() {
    let checksum = calculate_checksum(b"ABCDEFGHI");
    let mut d = QRFileDecoder::new();
    assert!(matches!(d.process_qr_code(&meta("f.bin", 9, 3, &checksum)), ProcessResult::Metadata));
    assert!(completed(d.process_qr_code("D:0:0:0:3:1:0:QUJD")).is_none());
    assert!(completed(d.process_qr_code("D:1:0:0:3:1:1:REVG")).is_none());
    let (name, data) = reconstructed(completed(d.process_qr_code("D:2:0:0:3:1:2:R0hJ")));
    assert_eq!(name, "f.bin");
    assert_eq!(data, b"ABCDEFGHI".to_vec());
    assert_eq!(calculate_checksum(&data), checksum);
}

#[test]
fn metadata_fields_are_decoded() {
    match parse_packet("M:2:my%20file.bin:image%2Fjpeg:10:4:x:x:x:x:x:x:x:deadbeef:extra") {
        Ok(Packet::Metadata(m)) => {
            assert_eq!(m.version, "2");
            assert_eq!(m.file_name, "my file.bin");
            assert_eq!(m.file_type, "image/jpeg");
            assert_eq!(m.file_size, 10);
            assert_eq!(m.chunks_count, 4);
            assert_eq!(m.file_checksum, Some("deadbeef".to_string()));
        }
        _ => panic!("not metadata"),
    }
    match parse_packet("M:1:a:b:1:1") {
        Ok(Packet::Metadata(m)) => assert_eq!(m.file_checksum, None),
        _ => panic!("not metadata"),
    }
    assert_eq!(parse_packet("M:1:a:b:x:1").err(), Some(ParseError::MalformedMetadata));
    assert_eq!(parse_packet("M:1:a:b:1").err(), Some(ParseError::MalformedMetadata));
}

#[test]
fn data_body_forms() {
    match parse_packet("D:7:0:0:3:1:0:QUJD|2:R0hJ") {
        Ok(Packet::Data(p)) => {
            assert_eq!(p.packet_id, 7);
            assert_eq!(p.source_chunks, vec![0, 2]);
            assert_eq!(p.systematic_data_chunks[0].chunk_data, b"ABC".to_vec());
            assert_eq!(p.systematic_data_chunks[1].chunk_data, b"GHI".to_vec());
            assert!(p.xor_data.is_none());
        }
        _ => panic!("not data"),
    }
    match parse_packet("D:8:0:0:3:1:2,0,2:Qk9M") {
        Ok(Packet::Data(p)) => {
            assert_eq!(p.source_chunks, vec![2, 0]);
            assert!(p.systematic_data_chunks.is_empty());
            assert_eq!(p.xor_data, Some(b"BOL".to_vec()));
        }
        _ => panic!("not data"),
    }
    // whitespace is stripped and padding restored before decoding
    match parse_packet("D:9:0:0:1:1:0:Q Q") {
        Ok(Packet::Data(p)) => assert_eq!(p.systematic_data_chunks[0].chunk_data, b"A".to_vec()),
        _ => panic!("not data"),
    }
    // a record that is not base64 is skipped, the rest kept
    match parse_packet("D:1:0:0:3:1:0:QUJD|1:@@@@") {
        Ok(Packet::Data(p)) => assert_eq!(p.source_chunks, vec![0]),
        _ => panic!("not data"),
    }
    assert_eq!(parse_packet("D:1:0:0:3:1:x:QUJD").err(), Some(ParseError::MalformedData));
    assert_eq!(parse_packet("D:x:0:0:3:1:0:QUJD").err(), Some(ParseError::MalformedData));
    assert_eq!(parse_packet("D:1:0:0:3:1:0,1").err(), Some(ParseError::MalformedData));
    assert_eq!(parse_packet("X:1").err(), Some(ParseError::UnknownType));
    assert_eq!(parse_packet("M:é").err(), Some(ParseError::NotAscii));
}

#[test]
fn coded_only_recovery() {
    let mut d = QRFileDecoder::new();
    d.process_qr_code(&meta("c.bin", 9, 3, ""));
    // the XOR of all three chunks comes first and waits
    assert!(completed(d.process_qr_code("D:5:0:0:3:1:0,1,2:Qk9M")).is_none());
    assert!(completed(d.process_qr_code("D:0:0:0:3:1:0:QUJD")).is_none());
    let (_, data) = reconstructed(completed(d.process_qr_code("D:2:0:0:3:1:2:R0hJ")));
    assert_eq!(data, b"ABCDEFGHI".to_vec());
}

#[test]
fn two_interleaved_files_route_by_time() {
    let mut d = QRFileDecoder::new();
    d.process_qr_code(&meta("a.bin", 9, 3, ""));
    d.process_qr_code("D:0:0:0:3:1:0:QUJD");
    d.process_qr_code("D:1:0:0:3:1:1:REVG");
    d.process_qr_code(&meta("b.bin", 3, 2, ""));
    assert!(completed(d.process_qr_code("D:0:0:0:2:1:0:QUJD")).is_none());
    // meant for A by its sender, it goes to B, the active file
    let (name, data) = reconstructed(completed(d.process_qr_code("D:2:0:0:3:1:1:R0hJ")));
    assert_eq!(name, "b.bin");
    assert_eq!(data, b"ABC".to_vec());
    assert_eq!(d.file_count(), 1);
}

#[test]
fn data_before_metadata_is_rejected() {
    let mut d = QRFileDecoder::new();
    assert!(matches!(
        d.process_qr_code("D:0:0:0:3:1:0:QUJD"),
        ProcessResult::Rejected(RejectReason::NoActiveFile)
    ));
    assert_eq!(d.file_count(), 0);
}

#[test]
fn single_chunk_file_completes_at_once() {
    let mut d = QRFileDecoder::new();
    d.process_qr_code(&meta("one.bin", 3, 1, ""));
    let (_, data) = reconstructed(completed(d.process_qr_code("D:0:0:0:1:1:0:QUJD")));
    assert_eq!(data, b"ABC".to_vec());
}

#[test]
fn last_chunk_is_cut_to_file_size() {
    let mut d = QRFileDecoder::new();
    d.process_qr_code(&meta("t.bin", 7, 3, ""));
    d.process_qr_code("D:0:0:0:3:1:0:QUJD|1:REVG");
    let (_, data) = reconstructed(completed(d.process_qr_code("D:1:0:0:3:1:2:R0hJ")));
    assert_eq!(data, b"ABCDEFG".to_vec());
}

#[test]
fn malformed_packet_does_not_stop_decoding() {
    let mut d = QRFileDecoder::new();
    d.process_qr_code(&meta("m.bin", 6, 2, ""));
    d.process_qr_code("D:0:0:0:2:1:0:QUJD");
    let r = d.process_qr_code("D:1:0:0");
    assert!(matches!(r, ProcessResult::Rejected(RejectReason::Parse(ParseError::MalformedData))));
    assert!(!r.is_valid());
    let (_, data) = reconstructed(completed(d.process_qr_code("D:2:0:0:2:1:1:REVG")));
    assert_eq!(data, b"ABCDEF".to_vec());
}

#[test]
fn checksum_mismatch_writes_nothing() {
    let mut d = QRFileDecoder::new();
    d.process_qr_code(&meta("bad.bin", 3, 1, "00000000"));
    match completed(d.process_qr_code("D:0:0:0:1:1:0:QUJD")) {
        Some(FileOutcome::ChecksumMismatch { file_name, expected, actual }) => {
            assert_eq!(file_name, "bad.bin");
            assert_eq!(expected, "00000000");
            assert_eq!(actual, calculate_checksum(b"ABC"));
        }
        _ => panic!("expected a checksum mismatch"),
    }
    // another file of the same run is unaffected
    d.process_qr_code(&meta("good.bin", 3, 1, &calculate_checksum(b"DEF")));
    let (name, data) = reconstructed(completed(d.process_qr_code("D:0:0:0:1:1:0:REVG")));
    assert_eq!(name, "good.bin");
    assert_eq!(data, b"DEF".to_vec());
}

#[test]
fn jpeg_markers_are_checked() {
    let mut d = QRFileDecoder::new();
    d.process_qr_code("M:1:x.jpg:image%2Fjpeg:3:1");
    assert!(matches!(
        completed(d.process_qr_code("D:0:0:0:1:1:0:QUJD")),
        Some(FileOutcome::StructureMismatch { .. })
    ));
    let mut d = QRFileDecoder::new();
    d.process_qr_code("M:1:y.jpg:image%2Fjpeg:4:1");
    // FF D8 FF D9
    let (_, data) = reconstructed(completed(d.process_qr_code("D:0:0:0:1:1:0:/9j/2Q==")));
    assert_eq!(data, vec![0xFF, 0xD8, 0xFF, 0xD9]);
}

#[test]
fn fnv_checksum_values() {
    assert_eq!(calculate_checksum(b""), "811c9dc5");
    assert_eq!(calculate_checksum(b"a"), "e40c292c");
    assert_eq!(calculate_checksum(b"foobar"), "bf9cf968");
}

#[test]
fn decoding_twice_gives_the_same_files() {
    let stream: Vec<String> = vec![
        meta("r.bin", 9, 3, ""),
        "D:0:0:0:3:1:0:QUJD".to_string(),
        "D:5:0:0:3:1:0,1,2:Qk9M".to_string(),
        "D:2:0:0:3:1:2:R0hJ".to_string(),
    ];
    let run = |s: &Vec<String>| -> Vec<(String, Vec<u8>)> {
        let mut d = QRFileDecoder::new();
        d.process_all(s)
            .into_iter()
            .filter_map(|r| match completed(r) {
                Some(FileOutcome::Reconstructed { file_name, data, .. }) => Some((file_name, data)),
                _ => None,
            })
            .collect()
    };
    let first = run(&stream);
    assert_eq!(first.len(), 1);
    assert_eq!(first, run(&stream));
}

#[test]
fn incomplete_files_list_missing_chunks() {
    let mut d = QRFileDecoder::new();
    d.process_qr_code(&meta("p.bin", 15, 5, ""));
    d.process_qr_code("D:0:0:0:5:1:1:REVG|3:R0hJ");
    let pending = d.incomplete_files();
    assert_eq!(pending.len(), 1);
    assert_eq!(pending[0].file_name, "p.bin");
    assert_eq!(pending[0].chunks_count, 5);
    assert_eq!(pending[0].missing, vec![0, 2, 4]);
}

#[test]
fn listed_checksum_of_the_single_file_example_does_not_match() {
    // the metadata names checksum abc12345, but ABCDEFGHI hashes otherwise
    assert_eq!(calculate_checksum(b"ABCDEFGHI"), "b3c9d58c");
    let mut d = QRFileDecoder::new();
    d.process_qr_code(&meta("f.bin", 9, 3, "abc12345"));
    d.process_qr_code("D:0:0:0:3:1:0:QUJD");
    d.process_qr_code("D:1:0:0:3:1:1:REVG");
    assert!(matches!(
        completed(d.process_qr_code("D:2:0:0:3:1:2:R0hJ")),
        Some(FileOutcome::ChecksumMismatch { .. })
    ));
}

#[test]
fn other_jpeg_types_are_checked_too() {
    let mut d = QRFileDecoder::new();
    d.process_qr_code("M:1:x.jpg:image%2Fpjpeg:3:1");
    assert!(matches!(
        completed(d.process_qr_code("D:0:0:0:1:1:0:QUJD")),
        Some(FileOutcome::StructureMismatch { .. })
    ));
}
