use mala_strings::extract::{extract_strings, is_printable, Candidate, Extractor};

fn pairs(v: &[Candidate]) -> Vec<(usize, Vec<u8>)> {
    v.iter().map(|c| (c.offset, c.bytes.clone())).collect()
}

fn streamed(data: &[u8], chunk: usize, min_length: usize) -> Vec<(usize, Vec<u8>)> {
    let mut ex = Extractor::new(min_length);
    let mut out = Vec::new();
    for part in data.chunks(chunk) {
        out.extend(ex.feed(part));
    }
    out.extend(ex.finish());
    pairs(&out)
}

#[test]
fn printable_range_edges() {
    assert!(!is_printable(0x1f));
    assert!(is_printable(0x20));
    assert!(is_printable(b'a'));
    assert!(is_printable(0x7e));
    assert!(!is_printable(0x7f));
    assert!(!is_printable(0x00));
    assert!(!is_printable(0xff));
}

#[test]
fn sentence_between_padding_found_once() {
    let mut data = vec![0u8, 1, 2, 0xff, 0x10];
    data.extend_from_slice(b"Hello, World! This is a test.");
    data.extend_from_slice(&[0u8, 0x80, 7]);
    let got = pairs(&extract_strings(&data, 6));
    assert_eq!(got, vec![(5, b"Hello, World! This is a test.".to_vec())]);
}

#[test]
fn five_bytes_dropped_six_kept() {
    let data = b"\x00\x01abcde\x02\x03";
    assert!(extract_strings(data, 6).is_empty());
    let data = b"\x00\x01abcdef\x02\x03";
    assert_eq!(pairs(&extract_strings(data, 6)), vec![(2, b"abcdef".to_vec())]);
}

#[test]
fn short_runs_split_by_one_byte_are_not_joined() {
    let data = b"abcde\x00fghij\x01klmno";
    assert!(extract_strings(data, 6).is_empty());
}

#[test]
fn run_at_end_of_stream_is_flushed() {
    let data = b"\x00\x00\x00trailing text";
    assert_eq!(pairs(&extract_strings(data, 6)), vec![(3, b"trailing text".to_vec())]);
    let data = b"\x00\x00\x00short";
    assert!(extract_strings(data, 6).is_empty());
}

#[test]
fn whole_stream_printable() {
    let data = b"abcdefgh";
    assert_eq!(pairs(&extract_strings(data, 6)), vec![(0, b"abcdefgh".to_vec())]);
}

#[test]
fn empty_stream_gives_nothing() {
    assert!(extract_strings(b"", 6).is_empty());
    let ex = Extractor::new(6);
    assert!(ex.finish().is_empty());
}

#[test]
fn several_runs_in_offset_order() {
    let data = b"first run\x00\x01second run\x0athird\x0bfourth one";
    let got = pairs(&extract_strings(data, 6));
    assert_eq!(
        got,
        vec![
            (0, b"first run".to_vec()),
            (11, b"second run".to_vec()),
            (28, b"fourth one".to_vec()),
        ]
    );
}

#[test]
fn chunk_boundaries_keep_offsets() {
    let mut data = Vec::new();
    for i in 0..500u32 {
        data.extend_from_slice(format!("record number {} ", i).as_bytes());
        data.push((i % 5) as u8);
    }
    let whole = pairs(&extract_strings(&data, 6));
    assert!(!whole.is_empty());
    for chunk in [1usize, 3, 7, 64, 2048, 100_000] {
        assert_eq!(streamed(&data, chunk, 6), whole);
    }
    for (off, bytes) in &whole {
        assert_eq!(&data[*off..*off + bytes.len()], &bytes[..]);
    }
}

#[test]
fn run_spanning_chunks_reported_whole() {
    let data = b"\x01\x02abcdefghijkl\x03";
    assert_eq!(streamed(data, 4, 6), vec![(2, b"abcdefghijkl".to_vec())]);
}

#[test]
fn zero_threshold_reports_only_nonempty_runs() {
    let data = b"\x00ab\x00\x00c";
    assert_eq!(
        pairs(&extract_strings(data, 0)),
        vec![(1, b"ab".to_vec()), (5, b"c".to_vec())]
    );
}
