use t2totp::hidframe::{
    build_send_frames, FrameError, ResponseAssembler, Step, FLAG_BUSY, FLAG_LAST, FLAG_MORE, MAGIC,
    MAX_CHUNK, REPORT_LEN, REPORT_PAYLOAD,
};

#[test]
fn short_apdu_single_frame() {
    let apdu = [0x80, 0xC5, 0x01, 0x00];
    let frames = build_send_frames(&apdu);
    assert_eq!(frames.len(), 1);
    assert_eq!(frames[0][1], MAGIC);
    assert_eq!(frames[0][3], 4);
    assert_eq!(&frames[0][4..8], &apdu);
}

#[test]
fn sixty_two_bytes_splits() {
    let frames = build_send_frames(&vec![0xAA; 62]);
    assert_eq!(frames.len(), 2);
    assert_eq!(frames[0][2], FLAG_MORE);
    assert_eq!(frames[1][2], FLAG_LAST | 1);
    assert_eq!(frames[1][3], 1);
}

fn payload(flags_seq: u8, chunk: &[u8]) -> Vec<u8> {
    let mut p = vec![MAGIC, flags_seq, chunk.len() as u8];
    p.extend_from_slice(chunk);
    p.resize(REPORT_PAYLOAD, 0);
    p
}

#[test]
fn assemble_single_frame_with_sw() {
    let mut assembler = ResponseAssembler::new();
    assert_eq!(
        assembler.push(&payload(FLAG_LAST, &[b'A', b'B', 0x90, 0x00])).unwrap(),
        Step::Done
    );
    let (data, sw) = assembler.into_response().unwrap();
    assert_eq!(data, b"AB");
    assert_eq!(sw, 0x9000);
}

#[test]
fn busy_frames_dont_advance_sequence() {
    let mut assembler = ResponseAssembler::new();
    for i in 1..=3 {
        assert_eq!(
            assembler.push(&payload(FLAG_BUSY, &[])).unwrap(),
            Step::Busy { retries: i }
        );
    }
    assert_eq!(
        assembler.push(&payload(FLAG_LAST, &[b'Z', 0x90, 0x00])).unwrap(),
        Step::Done
    );
    let (data, sw) = assembler.into_response().unwrap();
    assert_eq!(data, b"Z");
    assert_eq!(sw, 0x9000);
}

#[test]
fn empty_apdu_is_one_empty_frame() {
    let frames = build_send_frames(&[]);
    assert_eq!(frames.len(), 1);
    assert_eq!(frames[0][2], FLAG_LAST);
    assert_eq!(frames[0][3], 0);
    assert_eq!(frames[0].len(), REPORT_LEN);
}

#[test]
fn full_chunk_is_one_frame_and_the_rest_is_zero() {
    let frames = build_send_frames(&[7u8; 61]);
    assert_eq!(frames.len(), 1);
    assert_eq!(frames[0][3], 61);
    assert!(frames[0][4..].iter().all(|&b| b == 7));
    let frames = build_send_frames(&[7u8; 60]);
    assert_eq!(frames[0][64], 0);
}

#[test]
fn frames_reassemble_with_wrapping_sequence_numbers() {
    let apdu: Vec<u8> = (0..MAX_CHUNK * 40 + 5).map(|i| (i % 251) as u8).collect();
    let frames = build_send_frames(&apdu);
    assert_eq!(frames.len(), 41);
    assert_eq!(frames[16][2], FLAG_MORE);
    assert_eq!(frames[17][2], FLAG_MORE | 1);
    let mut assembler = ResponseAssembler::new();
    for (i, f) in frames.iter().enumerate() {
        let want = if i + 1 == frames.len() { Step::Done } else { Step::NeedMore };
        assert_eq!(assembler.push(f).unwrap(), want);
    }
    assert!(assembler.is_done());
    let (data, sw) = assembler.into_response().unwrap();
    assert_eq!(data, apdu[..apdu.len() - 2].to_vec());
    let n = apdu.len();
    assert_eq!(sw, (apdu[n - 2] as u16) * 256 + apdu[n - 1] as u16);
}

#[test]
fn busy_frames_between_chunks_do_not_matter() {
    let mut assembler = ResponseAssembler::new();
    assert_eq!(assembler.push(&payload(FLAG_MORE, &[1, 2])).unwrap(), Step::NeedMore);
    assert_eq!(assembler.push(&payload(FLAG_BUSY, &[])).unwrap(), Step::Busy { retries: 1 });
    assert_eq!(assembler.push(&payload(FLAG_BUSY | 5, &[])).unwrap(), Step::Busy { retries: 2 });
    assert_eq!(assembler.push(&payload(FLAG_MORE | 1, &[3])).unwrap(), Step::NeedMore);
    assert_eq!(assembler.push(&payload(FLAG_BUSY, &[])).unwrap(), Step::Busy { retries: 1 });
    assert_eq!(assembler.push(&payload(FLAG_LAST | 2, &[0x6A, 0x80])).unwrap(), Step::Done);
    assert_eq!(assembler.into_response(), Some((vec![1, 2, 3], 0x6A80)));
}

#[test]
fn report_id_before_the_payload_is_accepted() {
    let mut assembler = ResponseAssembler::new();
    let mut raw = vec![0x00];
    raw.extend_from_slice(&payload(FLAG_LAST, &[0x90, 0x00]));
    assert_eq!(assembler.push(&raw).unwrap(), Step::Done);
    assert_eq!(assembler.into_response(), Some((vec![], 0x9000)));
}

#[test]
fn bad_frames_are_refused() {
    let mut assembler = ResponseAssembler::new();
    assert_eq!(assembler.push(&[MAGIC, 0]), Err(FrameError::ShortFrame));
    assert_eq!(assembler.push(&[0x22, 0, 0]), Err(FrameError::BadMagic));
    assert_eq!(
        assembler.push(&payload(FLAG_LAST | 3, &[])),
        Err(FrameError::OutOfSequence { expected: 0, got: 3 })
    );
    assert_eq!(assembler.push(&[MAGIC, 0, 62]), Err(FrameError::ChunkTooLong(62)));
    assert_eq!(assembler.push(&[MAGIC, 1, 4, 1, 2]), Err(FrameError::ShortFrame));
    assert!(!assembler.is_done());
    assert_eq!(assembler.into_response(), None);
}

#[test]
fn frame_error_texts() {
    assert_eq!(FrameError::BadMagic.to_string(), "HID frame magic byte was not 0x21");
    assert_eq!(FrameError::ChunkTooLong(200).to_string(), "HID chunk length 200 exceeds 61");
    assert_eq!(
        FrameError::OutOfSequence { expected: 3, got: 15 }.to_string(),
        "HID frame out of sequence: expected 3, got 15"
    );
    assert_eq!(
        FrameError::ShortFrame.to_string(),
        "HID frame shorter than its 3-byte header"
    );
}
