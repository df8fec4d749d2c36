use flumeview_sql::offset_log::{read_entries, read_entries_since};
use flumeview_sql::LogError;

fn frame(data: &[u8]) -> Vec<u8> {
    let mut out = Vec::new();
    out.extend_from_slice(&(data.len() as u32).to_le_bytes());
    out.extend_from_slice(data);
    out.extend_from_slice(&(data.len() as u32).to_le_bytes());
    out
}

fn stream(datas: &[&[u8]]) -> Vec<u8> {
    let mut out = Vec::new();
    for d in datas {
        out.extend_from_slice(&frame(d));
    }
    out
}

#[test]
fn full_scan_reproduces_entries_at_cumulative_offsets() {
    let log = stream(&[b"first", b"second!", b""]);
    let entries = read_entries(&log, 0).unwrap();
    assert_eq!(entries.len(), 3);
    assert_eq!(entries[0].sequence, 0);
    assert_eq!(entries[0].data, b"first".to_vec());
    assert_eq!(entries[1].sequence, 8 + 5);
    assert_eq!(entries[1].data, b"second!".to_vec());
    assert_eq!(entries[2].sequence, 8 + 5 + 8 + 7);
    assert_eq!(entries[2].data, Vec::<u8>::new());
}

#[test]
fn empty_stream_is_empty_log() {
    let entries = read_entries(&Vec::new(), 0).unwrap();
    assert!(entries.is_empty());
}

#[test]
fn up_to_three_trailing_bytes_are_end_of_log() {
    let mut log = stream(&[b"data"]);
    log.extend_from_slice(&[1, 2, 3]);
    let entries = read_entries(&log, 0).unwrap();
    assert_eq!(entries.len(), 1);
}

#[test]
fn mismatched_length_suffix_is_corrupt() {
    let mut log = frame(b"data");
    let last = log.len() - 4;
    log[last] ^= 0xff;
    assert_eq!(read_entries(&log, 0), Err(LogError::CorruptLog));
}

#[test]
fn truncated_frame_is_corrupt() {
    let log = frame(b"data");
    let cut = &log[..log.len() - 2].to_vec();
    assert_eq!(read_entries(cut, 0), Err(LogError::CorruptLog));
}

#[test]
fn corruption_is_terminal_even_with_good_frames_before() {
    let mut log = stream(&[b"good"]);
    log.extend_from_slice(&frame(b"bad"));
    let last = log.len() - 1;
    log[last] ^= 0x01;
    assert_eq!(read_entries(&log, 0), Err(LogError::CorruptLog));
}

#[test]
fn restart_at_frame_boundary_reproduces_the_suffix() {
    let log = stream(&[b"first", b"second!"]);
    let all = read_entries(&log, 0).unwrap();
    let resumed = read_entries(&log, 13).unwrap();
    assert_eq!(resumed.len(), 1);
    assert_eq!(resumed[0].sequence, all[1].sequence);
    assert_eq!(resumed[0].data, all[1].data);
}

#[test]
fn resume_after_latest_yields_exactly_the_unindexed_entries() {
    let log = stream(&[b"a", b"bb", b"ccc"]);
    let all = read_entries(&log, 0).unwrap();
    let latest = all[0].sequence;
    let rest = read_entries_since(&log, latest + 1).unwrap();
    assert_eq!(rest.len(), 2);
    assert_eq!(rest[0].sequence, all[1].sequence);
    assert_eq!(rest[1].sequence, all[2].sequence);
    let nothing_indexed = read_entries_since(&log, 0).unwrap();
    assert_eq!(nothing_indexed.len(), 3);
}
