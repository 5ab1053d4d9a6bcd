use mala_strings::extract::Candidate;
use mala_strings::{readable_strings, score_candidate, MIN_LENGTH, MIN_SCORE};

#[test]
fn threshold_constants() {
    assert_eq!(MIN_LENGTH, 6);
    assert_eq!(MIN_SCORE, 40);
}

#[test]
fn candidate_above_threshold_kept() {
    let c = Candidate { offset: 17, bytes: b"Hello, World! This is a test.".to_vec() };
    let s = score_candidate(&c).unwrap();
    assert_eq!(s.position, 17);
    assert_eq!(s.string, "Hello, World! This is a test.");
    assert_eq!(s.score, 78);
}

#[test]
fn candidate_below_threshold_dropped() {
    let c = Candidate { offset: 0, bytes: vec![b'a'; 2601] };
    assert!(score_candidate(&c).is_none());
}

#[test]
fn readable_strings_from_buffer() {
    let mut data = vec![0u8, 0xfe, 0x01];
    data.extend_from_slice(b"Hello, World! This is a test.");
    data.push(0);
    data.extend_from_slice(b"abcde");
    data.push(0);
    data.extend_from_slice(b"abcdef");
    let got = readable_strings(&data);
    assert_eq!(got.len(), 2);
    assert_eq!(got[0].position, 3);
    assert_eq!(got[0].string, "Hello, World! This is a test.");
    assert_eq!(got[0].score, 78);
    assert_eq!(got[1].position, 39);
    assert_eq!(got[1].string, "abcdef");
    assert_eq!(got[1].score, 114);
}
