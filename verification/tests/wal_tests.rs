use wal::codec::{decode_entries, encode_entries, WalError};
use wal::entry::{EntryType, WALEntry};
use wal::manager::{SegmentWrite, WALManager};
use wal::recovery::{parse_segment_name, scan_segments, segment_file_name, WALBuilder};

fn insert_entry(payload: Vec<u8>, timestamp: u64, transaction_id: u64) -> WALEntry {
    WALEntry {
        entry_type: EntryType::Insert,
        data: Some(payload),
        timestamp,
        transaction_id,
    }
}

fn fresh_manager(page_size: usize) -> WALManager {
    let names: Vec<Vec<u8>> = Vec::new();
    let last: Option<Vec<u8>> = None;
    WALManager::builder()
        .set_page_size(page_size)
        .build(&names, &last)
        .expect("fresh directory must build")
}

/// Runs the full write path for one entry as a caller with a durable disk
/// would: perform both halves, committing each, and hand back the writes.
fn append(mgr: &mut WALManager, entry: WALEntry, now: u64) -> (Option<SegmentWrite>, SegmentWrite) {
    let plan = mgr.append_log(&entry, now);
    let seal = plan.seal;
    if seal.is_some() {
        mgr.commit_checkpoint();
    }
    mgr.commit_append(entry);
    (seal, plan.write)
}

/// Runs an explicit checkpoint, committing it, and hands back the sealing
/// write.
fn checkpoint(mgr: &mut WALManager, now: u64) -> SegmentWrite {
    let w = mgr.checkpoint(now);
    mgr.commit_checkpoint();
    w
}

#[test]
fn test_create() {
    let names: Vec<Vec<u8>> = Vec::new();
    let last: Option<Vec<u8>> = None;
    let builder = WALManager::builder().build(&names, &last);
    assert!(builder.is_ok());

    let builder = builder.unwrap();
    assert_eq!(builder.sequence(), 1);
}

#[test]
fn test_append_wal() {
    let mut wal_manager = fresh_manager(4096);

    for _ in 0..100 {
        let entry = WALEntry {
            entry_type: EntryType::Insert,
            data: Some(Vec::from([10u8; 100])),
            timestamp: 0,
            transaction_id: 0,
        };

        let (_seal, write) = append(&mut wal_manager, entry, 0);
        assert_eq!(write.sequence, wal_manager.sequence());
        let decoded = decode_entries(&write.bytes).expect("segment bytes must decode");
        assert_eq!(&decoded, wal_manager.buffered());
    }
}

#[test]
fn test_round_trip() {
    let entries = vec![
        insert_entry(vec![1, 2, 3], 11, 1),
        WALEntry {
            entry_type: EntryType::Update,
            data: Some(vec![]),
            timestamp: 12,
            transaction_id: 2,
        },
        WALEntry {
            entry_type: EntryType::Delete,
            data: Some(vec![255, 0, 128]),
            timestamp: 13,
            transaction_id: 3,
        },
        WALEntry {
            entry_type: EntryType::TransactionBegin,
            data: None,
            timestamp: 14,
            transaction_id: 4,
        },
        WALEntry {
            entry_type: EntryType::TransactionCommit,
            data: None,
            timestamp: u64::MAX,
            transaction_id: u64::MAX,
        },
        WALEntry {
            entry_type: EntryType::Checkpoint,
            data: None,
            timestamp: 15,
            transaction_id: 0,
        },
    ];
    let bytes = encode_entries(&entries);
    let decoded = decode_entries(&bytes).expect("round trip must decode");
    assert_eq!(decoded, entries);
}

#[test]
fn test_round_trip_empty() {
    let entries: Vec<WALEntry> = Vec::new();
    let bytes = encode_entries(&entries);
    assert!(bytes.is_empty());
    let decoded = decode_entries(&bytes).expect("empty segment must decode");
    assert!(decoded.is_empty());
}

#[test]
fn test_exact_encoding() {
    let entries = vec![insert_entry(vec![0xAB], 1, 2)];
    let bytes = encode_entries(&entries);
    let expected: Vec<u8> = vec![
        0, 1, // Insert tag, payload present
        1, 0, 0, 0, 0, 0, 0, 0, // timestamp 1
        2, 0, 0, 0, 0, 0, 0, 0, // transaction id 2
        1, 0, 0, 0, 0, 0, 0, 0, // payload length 1
        0xAB,
    ];
    assert_eq!(bytes, expected);
}

#[test]
fn test_decode_rejects_malformed() {
    // too short for the fixed fields
    assert_eq!(
        decode_entries(&vec![1, 2, 3]),
        Err(WalError::MalformedSegment)
    );
    // unknown tag byte
    let mut bad_tag = vec![6, 0];
    bad_tag.extend_from_slice(&[0u8; 16]);
    assert_eq!(decode_entries(&bad_tag), Err(WalError::MalformedSegment));
    // unknown payload-presence byte
    let mut bad_flag = vec![0, 2];
    bad_flag.extend_from_slice(&[0u8; 16]);
    assert_eq!(decode_entries(&bad_flag), Err(WalError::MalformedSegment));
    // payload length field claims more bytes than are present
    let entries = vec![insert_entry(vec![7, 8, 9], 0, 0)];
    let mut truncated = encode_entries(&entries);
    truncated.pop();
    assert_eq!(decode_entries(&truncated), Err(WalError::MalformedSegment));
    // trailing garbage after a valid entry
    let mut trailing = encode_entries(&entries);
    trailing.push(0);
    assert_eq!(decode_entries(&trailing), Err(WalError::MalformedSegment));
}

#[test]
fn test_monotonic_sequencing() {
    let mut mgr = fresh_manager(4096);
    assert_eq!(mgr.sequence(), 1);
    for n in 1..=5usize {
        checkpoint(&mut mgr, n as u64);
        assert_eq!(mgr.sequence(), 1 + n);
        assert!(mgr.buffered().is_empty());
    }
}

#[test]
fn test_threshold_trigger() {
    // page_size 200; each entry's accounting size is 17 + 63 = 80.
    let mut mgr = fresh_manager(200);
    let payload = vec![9u8; 63];
    assert_eq!(insert_entry(payload.clone(), 0, 0).size(), 80);

    // Sizes seen by the lagging check before each append: 0, 80, 160.
    for i in 0..3u64 {
        let (seal, write) = append(&mut mgr, insert_entry(payload.clone(), i, 0), i);
        assert!(seal.is_none());
        assert_eq!(write.sequence, 1);
    }
    assert_eq!(mgr.sequence(), 1);
    assert_eq!(mgr.buffered().len(), 3);

    // The fourth append sees 240 > 200: exactly one checkpoint first.
    let fourth = insert_entry(payload.clone(), 3, 0);
    let (seal, write) = append(&mut mgr, fourth.clone(), 3);
    let seal = seal.expect("the lagging check must fire");
    assert_eq!(seal.sequence, 1);
    let sealed = decode_entries(&seal.bytes).expect("sealed segment must decode");
    assert_eq!(sealed.len(), 4); // the three entries plus the marker
    assert_eq!(sealed[3].entry_type, EntryType::Checkpoint);

    // The fourth entry is written alone into the next segment.
    assert_eq!(write.sequence, 2);
    assert_eq!(mgr.sequence(), 2);
    assert_eq!(
        decode_entries(&write.bytes).expect("fresh segment must decode"),
        vec![fourth]
    );
    assert_eq!(mgr.buffered().len(), 1);
}

#[test]
fn test_segment_content_equals_buffer() {
    let mut mgr = fresh_manager(4096);
    for i in 0..10u64 {
        let (_seal, write) = append(&mut mgr, insert_entry(vec![i as u8; 8], i, i), i);
        let decoded = decode_entries(&write.bytes).expect("segment bytes must decode");
        assert_eq!(&decoded, mgr.buffered());
    }
    let seal = checkpoint(&mut mgr, 99);
    let decoded = decode_entries(&seal.bytes).expect("sealed segment must decode");
    assert_eq!(decoded.len(), 11);
}

#[test]
fn test_checkpoint_marker_is_terminal() {
    let mut mgr = fresh_manager(4096);
    for i in 0..4u64 {
        append(&mut mgr, insert_entry(vec![1, 2], i, 0), i);
    }
    let seal = checkpoint(&mut mgr, 77);
    let decoded = decode_entries(&seal.bytes).expect("sealed segment must decode");
    let last = decoded.last().expect("a sealed segment is never empty");
    assert_eq!(last.entry_type, EntryType::Checkpoint);
    assert_eq!(last.timestamp, 77);
    assert_eq!(last.transaction_id, 0);
    assert!(last.data.is_none());
}

#[test]
fn test_checkpoint_on_empty_buffer() {
    let mut mgr = fresh_manager(4096);
    assert!(mgr.buffered().is_empty());
    let seal = checkpoint(&mut mgr, 5);
    assert_eq!(seal.sequence, 1);
    let decoded = decode_entries(&seal.bytes).expect("sealed segment must decode");
    assert_eq!(decoded.len(), 1);
    assert_eq!(decoded[0].entry_type, EntryType::Checkpoint);
    assert_eq!(mgr.sequence(), 2);
    assert!(mgr.buffered().is_empty());
}

#[test]
fn test_fresh_directory_recovery() {
    let names: Vec<Vec<u8>> = Vec::new();
    let mgr = WALManager::builder()
        .set_page_size(128)
        .set_directory(String::from("logs"))
        .build(&names, &None)
        .expect("fresh directory must build");
    assert_eq!(mgr.sequence(), 1);
    assert!(mgr.buffered().is_empty());
    assert_eq!(mgr.page_size(), 128);
    assert_eq!(mgr.directory().as_str(), "logs");
}

#[test]
fn test_recovery_sealed_segment() {
    let sealed = vec![
        insert_entry(vec![1], 1, 1),
        WALEntry {
            entry_type: EntryType::Checkpoint,
            data: None,
            timestamp: 2,
            transaction_id: 0,
        },
    ];
    let names = vec![segment_file_name(1)];
    let last = Some(encode_entries(&sealed));
    let mgr = WALManager::builder()
        .build(&names, &last)
        .expect("sealed segment must build");
    // one segment file, sealed: resume one past the count
    assert_eq!(mgr.sequence(), 2);
    assert!(mgr.buffered().is_empty());
}

#[test]
fn test_recovery_unsealed_segment() {
    let open_segment = vec![insert_entry(vec![1], 1, 1), insert_entry(vec![2], 2, 1)];
    let names = vec![segment_file_name(1)];
    let last = Some(encode_entries(&open_segment));

    // the recovery decision itself surfaces the unsealed entries
    let (sequence, recovered) =
        WALBuilder::load_data(&names, &last).expect("unsealed segment must decode");
    assert_eq!(sequence, 1);
    assert_eq!(recovered, open_segment);

    // but a built manager deliberately starts with an empty buffer
    let mgr = WALManager::builder()
        .build(&names, &last)
        .expect("unsealed segment must build");
    assert_eq!(mgr.sequence(), 1);
    assert!(mgr.buffered().is_empty());
}

#[test]
fn test_recovery_rejects_corrupt_segment() {
    let names = vec![segment_file_name(1)];
    let last = Some(vec![1u8, 2, 3]);
    let built = WALManager::builder().build(&names, &last);
    assert_eq!(built.err(), Some(WalError::MalformedSegment));
}

#[test]
fn test_segment_file_name() {
    assert_eq!(segment_file_name(0), b"wal0.log".to_vec());
    assert_eq!(segment_file_name(1), b"wal1.log".to_vec());
    assert_eq!(segment_file_name(409), b"wal409.log".to_vec());
    for n in [0usize, 1, 9, 10, 4096, usize::MAX] {
        assert_eq!(parse_segment_name(&segment_file_name(n)), Some(n));
    }
}

#[test]
fn test_parse_segment_name() {
    assert_eq!(parse_segment_name(&b"wal7.log".to_vec()), Some(7));
    assert_eq!(parse_segment_name(&b"wal007.log".to_vec()), Some(7));
    assert_eq!(parse_segment_name(&b"foo.log".to_vec()), None);
    assert_eq!(parse_segment_name(&b"wal.log".to_vec()), None);
    assert_eq!(parse_segment_name(&b"wal1x.log".to_vec()), None);
    assert_eq!(parse_segment_name(&b"wal1.txt".to_vec()), None);
    assert_eq!(parse_segment_name(&b"wal99999999999999999999999.log".to_vec()), None);
}

#[test]
fn test_scan_segments() {
    let names = vec![
        b"wal10.log".to_vec(),
        b"notes.txt".to_vec(),
        b"wal9.log".to_vec(),
        b"wal2.log".to_vec(),
    ];
    let (count, latest) = scan_segments(&names);
    assert_eq!(count, 3);
    // the most recent segment is picked by its number, not listing order
    assert_eq!(latest, Some(0));

    let none: Vec<Vec<u8>> = vec![b"readme.md".to_vec()];
    assert_eq!(scan_segments(&none), (0, None));
}

#[test]
fn test_entry_size() {
    assert_eq!(insert_entry(vec![0; 100], 0, 0).size(), 117);
    let control = WALEntry {
        entry_type: EntryType::TransactionBegin,
        data: None,
        timestamp: 1,
        transaction_id: 1,
    };
    assert_eq!(control.size(), 17);
}

#[test]
fn test_builder_defaults_and_setters() {
    let names: Vec<Vec<u8>> = Vec::new();
    let mgr = WALManager::builder().build(&names, &None).unwrap();
    assert_eq!(mgr.page_size(), 4096);
    assert_eq!(mgr.directory().as_str(), ".");

    let mgr = WALManager::builder()
        .set_page_size(77)
        .set_directory(String::from("elsewhere"))
        .build(&names, &None)
        .unwrap();
    assert_eq!(mgr.page_size(), 77);
    assert_eq!(mgr.directory().as_str(), "elsewhere");
}
