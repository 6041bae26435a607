use base64::Engine;
use blake2::digest::{Update, VariableOutput};
use qrsend::cursor::Cursor;
use qrsend::decoder::{decode_frames, Action, Decoder, Phase};
use qrsend::frame::{classify, digest_ok, guess_hash_len, read_be, verified_len, Frame};
use qrsend::metadata::{parse_metadata, Metadata, MetadataError};
use qrsend::reassembly::{reconstruct, Outcome};

fn digest(data: &[u8], len: usize) -> Vec<u8> {
    let mut hasher = blake2::Blake2bVar::new(len).unwrap();
    hasher.update(data);
    let mut out = vec![0u8; len];
    hasher.finalize_variable(&mut out).unwrap();
    out
}

fn frame(tag: u8, body: &[u8], h: usize) -> Vec<u8> {
    let mut f = vec![tag];
    f.extend_from_slice(body);
    let d = digest(&f, h);
    f.extend_from_slice(&d);
    f
}

fn data_frame(id: u8, payload: &[u8]) -> Vec<u8> {
    let mut body = vec![id];
    body.extend_from_slice(payload);
    frame(b'D', &body, 4)
}

fn meta_frames() -> Vec<Vec<u8>> {
    vec![
        frame(b'M', b"{\"segment_count\":2,\"id_wid", 4),
        frame(b'M', b"th\":1,\"hash_length\":4}", 4),
    ]
}

fn checksum_frame(content: &[u8]) -> Vec<u8> {
    frame(b'H', &md5::compute(content).0, 4)
}

#[test]
fn scenario_two_segments_complete() {
    let mut frames = meta_frames();
    frames.push(data_frame(0, b"AB"));
    frames.push(data_frame(1, b"CD"));
    frames.push(checksum_frame(b"ABCD"));
    assert_eq!(reconstruct(&frames), Outcome::Complete(b"ABCD".to_vec()));
}

#[test]
fn scenario_wrong_checksum() {
    let mut frames = meta_frames();
    frames.push(data_frame(0, b"AB"));
    frames.push(data_frame(1, b"CD"));
    frames.push(checksum_frame(b"ABCE"));
    assert_eq!(
        reconstruct(&frames),
        Outcome::ChecksumMismatch {
            computed: hex::encode(md5::compute(b"ABCD").0),
            received: hex::encode(md5::compute(b"ABCE").0),
        }
    );
}

#[test]
fn scenario_missing_second_segment() {
    let mut frames = meta_frames();
    frames.push(data_frame(0, b"AB"));
    frames.push(checksum_frame(b"ABCD"));
    assert_eq!(reconstruct(&frames), Outcome::Missing(vec![1]));
}

#[test]
fn segments_out_of_order_join_by_id() {
    let mut frames = meta_frames();
    frames.push(data_frame(1, b"CD"));
    frames.push(data_frame(0, b"AB"));
    frames.push(checksum_frame(b"ABCD"));
    assert_eq!(reconstruct(&frames), Outcome::Complete(b"ABCD".to_vec()));
}

#[test]
fn rerun_gives_same_output() {
    let mut frames = meta_frames();
    frames.push(data_frame(0, b"AB"));
    frames.push(data_frame(1, b"CD"));
    frames.push(checksum_frame(b"ABCD"));
    assert_eq!(reconstruct(&frames), reconstruct(&frames));
}

#[test]
fn altered_payload_with_fresh_digest_is_checksum_failure() {
    let mut frames = meta_frames();
    frames.push(data_frame(0, b"AB"));
    frames.push(data_frame(1, b"CX"));
    frames.push(checksum_frame(b"ABCD"));
    assert!(matches!(reconstruct(&frames), Outcome::ChecksumMismatch { .. }));
}

#[test]
fn corrupted_frame_is_skipped() {
    let mut frames = meta_frames();
    frames.push(data_frame(0, b"AB"));
    let mut bad = data_frame(1, b"CD");
    bad[2] ^= 0x01;
    frames.push(bad);
    frames.push(checksum_frame(b"ABCD"));
    assert_eq!(reconstruct(&frames), Outcome::Missing(vec![1]));
}

#[test]
fn noise_between_frames_is_ignored() {
    let mut frames = vec![vec![], vec![1, 2, 3]];
    frames.extend(meta_frames());
    frames.push(b"not a frame".to_vec());
    frames.push(data_frame(0, b"AB"));
    frames.push(frame(b'M', b"{}", 4));
    frames.push(frame(b'X', b"??", 4));
    frames.push(data_frame(1, b"CD"));
    frames.push(checksum_frame(b"ABCD"));
    assert_eq!(reconstruct(&frames), Outcome::Complete(b"ABCD".to_vec()));
}

#[test]
fn duplicate_id_keeps_last() {
    let mut frames = meta_frames();
    frames.push(data_frame(0, b"ZZ"));
    frames.push(data_frame(1, b"CD"));
    frames.push(data_frame(0, b"AB"));
    frames.push(checksum_frame(b"ABCD"));
    assert_eq!(reconstruct(&frames), Outcome::Complete(b"ABCD".to_vec()));
}

#[test]
fn identifier_beyond_count_is_rejected() {
    let mut frames = meta_frames();
    frames.push(data_frame(0, b"AB"));
    frames.push(data_frame(2, b"EF"));
    frames.push(checksum_frame(b"AB"));
    assert_eq!(reconstruct(&frames), Outcome::Missing(vec![1]));
}

#[test]
fn no_frames_means_no_transmission() {
    assert_eq!(reconstruct(&vec![]), Outcome::NoTransmission);
    let frames = vec![data_frame(0, b"AB"), checksum_frame(b"AB")];
    assert_eq!(reconstruct(&frames), Outcome::NoTransmission);
}

#[test]
fn missing_checksum_is_mismatch() {
    let mut frames = meta_frames();
    frames.push(data_frame(0, b"AB"));
    frames.push(data_frame(1, b"CD"));
    assert_eq!(
        reconstruct(&frames),
        Outcome::ChecksumMismatch {
            computed: hex::encode(md5::compute(b"ABCD").0),
            received: String::new(),
        }
    );
}

#[test]
fn zero_segments_need_only_checksum() {
    let frames = vec![
        frame(b'M', b"{\"segment_count\":0,\"id_width\":8,\"hash_length\":16}", 16),
        frame(b'H', &md5::compute(b"").0, 16),
    ];
    assert_eq!(reconstruct(&frames), Outcome::Complete(vec![]));
}

#[test]
fn malformed_metadata_is_protocol_error() {
    let frames = vec![frame(b'M', b"{\"segment_count\":2}", 4), data_frame(0, b"AB")];
    assert_eq!(reconstruct(&frames), Outcome::ProtocolError(MetadataError::Malformed));
}

#[test]
fn unsupported_width_is_protocol_error() {
    let frames = vec![frame(b'M', b"{\"segment_count\":2,\"id_width\":3,\"hash_length\":4}", 4)];
    assert_eq!(
        reconstruct(&frames),
        Outcome::ProtocolError(MetadataError::UnsupportedIdWidth(3))
    );
}

#[test]
fn parse_metadata_reads_fields() {
    let m = parse_metadata(b"{\"id_width\":2,\"hash_length\":8,\"segment_count\":300}").unwrap();
    assert_eq!(m, Metadata { segment_count: 300, id_width: 2, hash_length: 8 });
    assert_eq!(parse_metadata(b"not json"), Err(MetadataError::Malformed));
    assert_eq!(
        parse_metadata(b"{\"segment_count\":-1,\"id_width\":1,\"hash_length\":4}"),
        Err(MetadataError::Malformed)
    );
}

#[test]
fn two_byte_identifiers() {
    let mut frames = vec![frame(
        b'M',
        b"{\"segment_count\":300,\"id_width\":2,\"hash_length\":8}",
        8,
    )];
    let mut expected = Vec::new();
    for id in (0u16..300).rev() {
        let mut body = id.to_be_bytes().to_vec();
        body.push((id % 251) as u8);
        frames.push(frame(b'D', &body, 8));
    }
    for id in 0u16..300 {
        expected.push((id % 251) as u8);
    }
    frames.push(frame(b'H', &md5::compute(&expected).0, 8));
    assert_eq!(reconstruct(&frames), Outcome::Complete(expected));
}

#[test]
fn digest_ok_checks_trailing_digest() {
    let f = frame(b'M', b"hello", 6);
    assert!(digest_ok(&f, 6));
    assert!(!digest_ok(&f, 5));
    assert!(!digest_ok(&f, f.len()));
    let mut g = f.clone();
    g[1] ^= 0x80;
    assert!(!digest_ok(&g, 6));
}

#[test]
fn guess_recovers_every_length() {
    for h in 1..=64usize {
        let f = frame(b'D', b"\x00payload", h);
        assert_eq!(guess_hash_len(&f), Some(h));
    }
    assert_eq!(guess_hash_len(b"plain bytes with no digest"), None);
    assert_eq!(guess_hash_len(&[]), None);
    assert_eq!(guess_hash_len(&[7]), None);
}

#[test]
fn read_be_is_big_endian() {
    assert_eq!(read_be(&[1, 2]), 258);
    assert_eq!(read_be(&[]), 0);
    assert_eq!(read_be(&[0xff; 8]), u64::MAX);
    assert_eq!(read_be(&[0, 0, 1, 0]), 256);
}

#[test]
fn classify_sorts_by_tag() {
    let md = Some(Metadata { segment_count: 5, id_width: 1, hash_length: 4 });
    match classify(&data_frame(3, b"xy"), md) {
        Frame::Data(id, p) => {
            assert_eq!(id, 3);
            assert_eq!(p, b"xy".to_vec());
        }
        _ => panic!("expected a data frame"),
    }
    assert!(matches!(classify(&data_frame(3, b"xy"), None), Frame::Rejected));
    match classify(&frame(b'M', b"{\"a\"", 4), None) {
        Frame::Metadata(b) => assert_eq!(b, b"{\"a\"".to_vec()),
        _ => panic!("expected a metadata frame"),
    }
    assert!(matches!(classify(&frame(b'H', b"sum", 4), md), Frame::Checksum(_)));
    assert!(matches!(classify(&frame(b'H', b"sum", 5), md), Frame::Rejected));
    assert!(matches!(classify(&frame(b'Q', b"sum", 4), md), Frame::Rejected));
}

#[test]
fn checksum_frame_in_data_phase_asks_for_replay() {
    let mut d = Decoder::new();
    for f in meta_frames() {
        assert_eq!(d.step(&f), Action::Advance);
    }
    assert_eq!(d.phase(), Phase::Data);
    assert_eq!(d.step(&data_frame(0, b"AB")), Action::Advance);
    let h = checksum_frame(b"AB");
    assert_eq!(d.step(&h), Action::Replay);
    assert_eq!(d.phase(), Phase::Checksum);
    assert_eq!(d.step(&data_frame(1, b"CD")), Action::Advance);
    assert_eq!(d.step(&h), Action::Stop);
    assert_eq!(d.phase(), Phase::Done);
    assert_eq!(d.step(&h), Action::Stop);
    assert_eq!(d.finish(), Outcome::Missing(vec![1]));
}

#[test]
fn step_text_decodes_base64() {
    let mut d = Decoder::new();
    for f in meta_frames() {
        let text = base64::engine::general_purpose::STANDARD.encode(&f);
        assert_eq!(d.step_text(&text), Action::Advance);
    }
    assert_eq!(d.metadata(), Some(Metadata { segment_count: 2, id_width: 1, hash_length: 4 }));
    assert_eq!(d.step_text("%%% not base64"), Action::Advance);
    assert_eq!(d.phase(), Phase::Data);
}

#[test]
fn decode_frames_stops_at_checksum() {
    let mut frames = meta_frames();
    frames.push(data_frame(0, b"AB"));
    frames.push(checksum_frame(b"AB"));
    frames.push(data_frame(1, b"CD"));
    let d = decode_frames(&frames);
    assert_eq!(d.phase(), Phase::Done);
    assert_eq!(d.finish(), Outcome::Missing(vec![1]));
}

#[test]
fn cursor_steps_back_once() {
    let mut c = Cursor::new(2);
    assert_eq!(c.next(), Some(0));
    assert_eq!(c.next(), Some(1));
    assert_eq!(c.next(), None);
    c.step_back();
    assert_eq!(c.next(), Some(1));
    let mut e = Cursor::new(0);
    e.step_back();
    assert_eq!(e.next(), None);
}

#[test]
fn verified_len_uses_known_hash_length() {
    let md = Some(Metadata { segment_count: 1, id_width: 1, hash_length: 4 });
    let f = frame(b'D', b"\x00abc", 4);
    assert_eq!(verified_len(&f, md), Some(4));
    assert_eq!(verified_len(&f, None), Some(4));
    let g = frame(b'D', b"\x00abc", 5);
    assert_eq!(verified_len(&g, md), None);
    assert_eq!(verified_len(&g, None), Some(5));
    let big = Some(Metadata { segment_count: 1, id_width: 1, hash_length: 100 });
    assert_eq!(verified_len(&f, big), None);
}
