use std::collections::HashMap;

use file_rotator::plan::FileOp;
use file_rotator::retire::retire_bytes;
use file_rotator::{Compression, RotatingFile, RotationPeriod};

/// A directory held in memory: filename to file bytes. The planned file
/// operations are carried out against it exactly as a real caller would
/// carry them out against a directory on disk.
struct MemDir {
    files: HashMap<String, Vec<u8>>,
}

impl MemDir {
    fn new() -> Self {
        MemDir { files: HashMap::new() }
    }

    fn listing(&self) -> Vec<String> {
        self.files.keys().cloned().collect()
    }

    fn apply(&mut self, ops: &[FileOp]) {
        for op in ops {
            match op {
                FileOp::Delete { filename } => {
                    self.files.remove(filename).expect("delete of a missing file");
                }
                FileOp::Rename { from, to } => {
                    let bytes = self.files.remove(from).expect("rename of a missing file");
                    self.files.insert(to.clone(), bytes);
                }
                FileOp::Compress { from, to, level } => {
                    let bytes = self.files.remove(from).expect("compress of a missing file");
                    let packed =
                        retire_bytes(Compression::Zstd { level: *level }, &bytes).unwrap();
                    self.files.insert(to.clone(), packed);
                }
                FileOp::Create { filename } => {
                    assert!(
                        !self.files.contains_key(filename),
                        "create-exclusive open hit an existing file"
                    );
                    self.files.insert(filename.clone(), Vec::new());
                }
            }
        }
    }

    fn write_live(&mut self, name: &str, bytes: &[u8]) {
        self.files.get_mut(name).expect("no live file").extend_from_slice(bytes);
    }
}

fn rotate(dir: &mut MemDir, rf: &mut RotatingFile, now: u64) {
    let listing = dir.listing();
    let ops = rf.plan_rotation(&listing);
    dir.apply(&ops);
    rf.rotate(now);
}

#[test]
fn test_manual_rotations_keep_count_bounded() {
    // Retained count 3, Manual policy, empty directory: after the i-th
    // rotation the directory holds min(i, 3) files, never more.
    let mut rf = RotatingFile::new("app", RotationPeriod::Manual, 3, Compression::Uncompressed, 0);
    let mut dir = MemDir::new();
    for i in 1..=5usize {
        rotate(&mut dir, &mut rf, 0);
        assert_eq!(dir.files.len(), i.min(3));
        dir.write_live(&rf.make_filepath(0), format!("{}", i).as_bytes());
    }
    // Exactly slots 0, 1, 2; slot 0 from the 5th rotation, slot 2 from the
    // 3rd.
    let mut names = dir.listing();
    names.sort();
    assert_eq!(names, vec!["app.0.log", "app.1.log", "app.2.log"]);
    assert_eq!(dir.files["app.0.log"], b"5");
    assert_eq!(dir.files["app.1.log"], b"4");
    assert_eq!(dir.files["app.2.log"], b"3");
}

#[test]
fn test_single_retained_file_replaces_live_slot() {
    // Retained count 1 with compression: each rotation replaces slot 0
    // outright; no slot 1 ever appears and nothing is compressed.
    let mut rf = RotatingFile::new(
        "app",
        RotationPeriod::Manual,
        1,
        Compression::Zstd { level: 0 },
        0,
    );
    let mut dir = MemDir::new();
    rotate(&mut dir, &mut rf, 0);
    dir.write_live("app.0.log", b"A");
    rotate(&mut dir, &mut rf, 0);
    dir.write_live("app.0.log", b"B");
    assert_eq!(dir.listing(), vec!["app.0.log".to_string()]);
    assert_eq!(dir.files["app.0.log"], b"B");
}

#[test]
fn test_compressed_retire_roundtrip() {
    let mut rf = RotatingFile::new(
        "app",
        RotationPeriod::Manual,
        3,
        Compression::Zstd { level: 3 },
        0,
    );
    let mut dir = MemDir::new();
    let payload = b"hello world, hello world, hello world".to_vec();
    rotate(&mut dir, &mut rf, 0);
    dir.write_live("app.0.log", &payload);
    rotate(&mut dir, &mut rf, 0);
    let mut names = dir.listing();
    names.sort();
    assert_eq!(names, vec!["app.0.log", "app.1.log.zstd"]);
    // The retired file really is transformed, and is byte-for-byte
    // recoverable by decompressing.
    let stored = dir.files["app.1.log.zstd"].clone();
    assert_ne!(stored, payload);
    assert_eq!(zstd::decode_all(&stored[..]).unwrap(), payload);
    let restored =
        file_rotator::retire::restore_retired(Compression::Zstd { level: 3 }, &stored).unwrap();
    assert_eq!(restored, payload);
    // A further rotation shifts the retired file without transforming it
    // again, and it stays recoverable.
    rotate(&mut dir, &mut rf, 0);
    let mut names = dir.listing();
    names.sort();
    assert_eq!(names, vec!["app.0.log", "app.1.log.zstd", "app.2.log.zstd"]);
    assert_eq!(dir.files["app.2.log.zstd"], stored);
    // Slot 1 now holds the compressed form of the (empty) file that was
    // live during the second interval.
    assert_eq!(zstd::decode_all(&dir.files["app.1.log.zstd"][..]).unwrap(), b"");
}

#[test]
fn test_uncompressed_contents_survive_until_evicted() {
    // Bytes written before a rotation stay byte-for-byte readable in the
    // file that was live, across later rotations, until it is evicted.
    let mut rf =
        RotatingFile::new("app", RotationPeriod::Manual, 2, Compression::Uncompressed, 0);
    let mut dir = MemDir::new();
    rotate(&mut dir, &mut rf, 0);
    dir.write_live("app.0.log", b"first interval");
    rotate(&mut dir, &mut rf, 0);
    assert_eq!(dir.files["app.1.log"], b"first interval");
    dir.write_live("app.0.log", b"second interval");
    rotate(&mut dir, &mut rf, 0);
    // The first interval's file was evicted (retained count 2); the second
    // interval's bytes moved to slot 1 unchanged.
    assert_eq!(dir.files.len(), 2);
    assert_eq!(dir.files["app.1.log"], b"second interval");
    assert_eq!(dir.files["app.0.log"], b"");
}

#[test]
fn test_foreign_files_are_never_touched() {
    let mut rf =
        RotatingFile::new("app", RotationPeriod::Manual, 2, Compression::Uncompressed, 0);
    let mut dir = MemDir::new();
    dir.files.insert("readme.md".to_string(), b"keep me".to_vec());
    dir.files.insert("other.5.log".to_string(), b"not ours".to_vec());
    for _ in 0..4 {
        rotate(&mut dir, &mut rf, 0);
    }
    assert_eq!(dir.files["readme.md"], b"keep me");
    assert_eq!(dir.files["other.5.log"], b"not ours");
    assert_eq!(dir.files.len(), 4);
}

#[test]
fn test_plan_for_empty_directory_only_creates() {
    let rf = RotatingFile::new("app", RotationPeriod::Manual, 3, Compression::Uncompressed, 0);
    let ops = rf.plan_rotation(&vec![]);
    assert_eq!(ops, vec![FileOp::Create { filename: "app.0.log".to_string() }]);
}

#[test]
fn test_plan_evicts_then_shifts_highest_first() {
    let rf = RotatingFile::new("app", RotationPeriod::Manual, 3, Compression::Uncompressed, 0);
    let listing = vec![
        "app.0.log".to_string(),
        "app.1.log".to_string(),
        "app.2.log".to_string(),
        "junk.txt".to_string(),
    ];
    let ops = rf.plan_rotation(&listing);
    assert_eq!(
        ops,
        vec![
            FileOp::Delete { filename: "app.2.log".to_string() },
            FileOp::Rename { from: "app.1.log".to_string(), to: "app.2.log".to_string() },
            FileOp::Rename { from: "app.0.log".to_string(), to: "app.1.log".to_string() },
            FileOp::Create { filename: "app.0.log".to_string() },
        ]
    );
}

#[test]
fn test_plan_keeps_retire_suffix_on_later_shifts() {
    let rf = RotatingFile::new(
        "app",
        RotationPeriod::Manual,
        4,
        Compression::Zstd { level: 0 },
        0,
    );
    let listing = vec!["app.1.log.zstd".to_string(), "app.0.log".to_string()];
    let ops = rf.plan_rotation(&listing);
    assert_eq!(
        ops,
        vec![
            FileOp::Rename {
                from: "app.1.log.zstd".to_string(),
                to: "app.2.log.zstd".to_string(),
            },
            FileOp::Compress {
                from: "app.0.log".to_string(),
                to: "app.1.log.zstd".to_string(),
                level: 0,
            },
            FileOp::Create { filename: "app.0.log".to_string() },
        ]
    );
}

#[test]
fn test_sink_state_machine() {
    // With no live file a rotation is due; afterwards the Manual policy
    // never asks for one on its own.
    let mut rf =
        RotatingFile::new("app", RotationPeriod::Manual, 3, Compression::Uncompressed, 0);
    assert!(rf.should_rotate(0));
    let mut dir = MemDir::new();
    rotate(&mut dir, &mut rf, 0);
    assert!(!rf.should_rotate(0));
    rf.record_write(b"whatever\n");
    assert!(!rf.should_rotate(0));
}

#[test]
fn test_sink_bytes_policy_drives_rotation() {
    let mut rf = RotatingFile::new(
        "app",
        RotationPeriod::Bytes(5),
        3,
        Compression::Uncompressed,
        0,
    );
    let mut dir = MemDir::new();
    rotate(&mut dir, &mut rf, 0);
    rf.record_write(b"1234");
    assert!(!rf.should_rotate(0));
    rf.record_write(b"5");
    assert!(rf.should_rotate(0));
    rotate(&mut dir, &mut rf, 0);
    assert!(!rf.should_rotate(0));
    assert_eq!(dir.files.len(), 2);
}

#[test]
fn test_retire_bytes_uncompressed_is_identity() {
    let data = b"some bytes".to_vec();
    assert_eq!(retire_bytes(Compression::Uncompressed, &data).unwrap(), data);
    let restored =
        file_rotator::retire::restore_retired(Compression::Uncompressed, &data).unwrap();
    assert_eq!(restored, data);
}

#[test]
fn test_retire_bytes_succeeds_on_every_level() {
    // The transform is total: even an out-of-range level is clamped by the
    // codec, not rejected, and the frame still decodes to the input.
    let data = b"level torture test, level torture test".to_vec();
    for &level in &[-5, 0, 1, 19, 100] {
        let packed = retire_bytes(Compression::Zstd { level }, &data).unwrap();
        assert_eq!(zstd::decode_all(&packed[..]).unwrap(), data);
    }
}

#[test]
fn test_restore_rejects_garbage_frame() {
    let garbage = b"this is not a zstd frame".to_vec();
    assert!(file_rotator::retire::restore_retired(Compression::Zstd { level: 0 }, &garbage)
        .is_err());
}
