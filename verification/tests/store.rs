use f3note::session::store::{
    drop_count, hash_of, history_file_name, key_for_path, mirror_update, parse_history_name,
    plan_snapshot, snapshot_contents, untitled_key_from, DocStore, HistoryEntry, MirrorMeta,
    Snapshot, SnapshotPlan,
};

const SECOND: u128 = 1_000_000_000;

#[test]
fn a_path_always_produces_the_same_key() {
    let a = key_for_path("/home/u/notes.txt");
    let b = key_for_path("/home/u/notes.txt");
    assert_eq!(a, b);
    assert_ne!(a, key_for_path("/home/u/other.txt"));
}

#[test]
fn ages_are_described_in_words_people_use() {
    let now: u128 = 1_700_000_000 * SECOND;
    let entry = |ago: u128| HistoryEntry {
        sequence: 1,
        hash: "x".into(),
        path: String::new(),
        written_at: Some(now - ago * SECOND),
        stored_bytes: 0,
    };
    assert_eq!(entry(3).age(now), "just now");
    assert_eq!(entry(30).age(now), "30 seconds ago");
    assert_eq!(entry(90).age(now), "a minute ago");
    assert_eq!(entry(600).age(now), "10 minutes ago");
    assert_eq!(entry(5400).age(now), "an hour ago");
    assert_eq!(entry(10800).age(now), "3 hours ago");
    assert_eq!(entry(90000).age(now), "yesterday");
    assert_eq!(entry(300000).age(now), "3 days ago");
}

#[test]
fn an_entry_with_no_timestamp_says_so_rather_than_guessing() {
    let entry = HistoryEntry {
        sequence: 1,
        hash: "x".into(),
        path: String::new(),
        written_at: None,
        stored_bytes: 0,
    };
    assert_eq!(entry.age(1_700_000_000 * SECOND), "unknown");
}

#[test]
fn a_time_in_the_future_is_just_now() {
    let entry = HistoryEntry {
        sequence: 1,
        hash: "x".into(),
        path: String::new(),
        written_at: Some(5 * SECOND),
        stored_bytes: 0,
    };
    assert_eq!(entry.age(SECOND), "just now");
}

#[test]
fn hashes_are_the_first_half_of_the_blake3_hex_digest() {
    let h = hash_of(b"");
    // BLAKE3 of the empty input begins af1349b9f5f9a1a6a0404dea36dcc949.
    assert_eq!(h, "af1349b9f5f9a1a6a0404dea36dcc949");
    assert_eq!(hash_of(b"persisted").len(), 32);
    assert!(key_for_path("/tmp/x").starts_with("f-"));
    assert_eq!(key_for_path("/tmp/x").len(), 34);
}

#[test]
fn untitled_keys_differ_with_the_time() {
    let a = untitled_key_from(42, 1);
    let b = untitled_key_from(42, 2);
    assert!(a.starts_with("u-"));
    assert_ne!(a, b);
    assert_eq!(a, untitled_key_from(42, 1));
}

#[test]
fn history_names_round_trip() {
    let name = history_file_name(7, "abc123");
    assert_eq!(name, "00000007-abc123.zst");
    assert_eq!(parse_history_name(&name), Some((7, "abc123".to_string())));
    assert_eq!(parse_history_name("123456789-h-x.zst"), Some((123456789, "h-x".to_string())));
    assert_eq!(parse_history_name("notes.txt"), None);
    assert_eq!(parse_history_name("nodash.zst"), None);
    assert_eq!(parse_history_name("x1-abc.zst"), None);
}

#[test]
fn history_is_capped_by_count_and_by_size() {
    // Count alone: ten snapshots, keep three.
    assert_eq!(drop_count(&[1; 10], 3, u64::MAX), 7);
    // Size alone: the newest two fit in 4096, the third from the end does not.
    assert_eq!(drop_count(&[2000; 20], 1000, 4096), 18);
    // Whichever is stricter wins.
    assert_eq!(drop_count(&[2000; 20], 1, 4096), 19);
    // Nothing to drop.
    assert_eq!(drop_count(&[10, 20], 5, 100), 0);
    assert_eq!(drop_count(&[], 5, 100), 0);
}

fn added(plan: SnapshotPlan) -> Snapshot {
    match plan {
        SnapshotPlan::Add(s) => s,
        _ => panic!("expected a snapshot"),
    }
}

#[test]
fn identical_content_is_not_snapshotted_twice() {
    let h = hash_of(b"one");
    assert!(matches!(plan_snapshot(b"one", Some(&h), 3), SnapshotPlan::Unchanged));
    let s = added(plan_snapshot(b"two", Some(&h), 3));
    assert_eq!(s.sequence, 4);
    assert_eq!(s.name, format!("00000004-{}.zst", hash_of(b"two")));
    assert_ne!(s.compressed, b"two".to_vec());
    assert_eq!(snapshot_contents(&s.compressed).unwrap(), b"two".to_vec());
}

#[test]
fn snapshots_compress_repetitive_text() {
    let text = "repetitive text ".repeat(500);
    let s = added(plan_snapshot(text.as_bytes(), None, 0));
    assert!(s.compressed.len() < text.len() / 4);
    assert_eq!(snapshot_contents(&s.compressed).unwrap(), text.as_bytes());
    assert!(snapshot_contents(b"not zstd").is_none());
}

#[test]
fn an_unchanged_mirror_is_not_rewritten() {
    let meta = MirrorMeta::default();
    assert_eq!(meta.sequence, 0);
    let h = hash_of(b"same");
    assert_eq!(mirror_update(&h, b"same", true), None);
    assert_eq!(mirror_update(&h, b"same", false), Some(h.clone()));
    assert_eq!(mirror_update(&meta.hash, b"same", true), Some(h));
}

#[test]
fn a_documents_files_live_under_its_key() {
    let s = DocStore::new("/state/f3note", "f-abc");
    assert_eq!(s.dir(), "/state/f3note/docs/f-abc");
    assert_eq!(s.mirror_path(), "/state/f3note/docs/f-abc/mirror");
    assert_eq!(s.meta_path(), "/state/f3note/docs/f-abc/meta.json");
    assert_eq!(s.history_dir(), "/state/f3note/docs/f-abc/history");
}

fn sized(bytes: u64) -> HistoryEntry {
    HistoryEntry { sequence: 1, hash: "x".into(), path: String::new(), written_at: None, stored_bytes: bytes }
}

#[test]
fn sizes_read_sensibly_at_every_scale() {
    assert_eq!(sized(0).size(), "empty");
    // A small note compresses to a few hundred bytes; "0.0 KB" would read
    // like an empty file.
    assert_eq!(sized(312).size(), "312 bytes");
    assert_eq!(sized(4096).size(), "4 KB");
    assert_eq!(sized(3 * 1024 * 1024).size(), "3.0 MB");
}

#[test]
fn sizes_round_as_floating_point_formatting_does() {
    // Halves go to the even neighbour.
    assert_eq!(sized(1536).size(), "2 KB");
    assert_eq!(sized(2560).size(), "2 KB");
    assert_eq!(sized(1310720).size(), "1.2 MB");
    assert_eq!(sized(u64::MAX).size(), "17592186044416.0 MB");
    assert_eq!(sized((1u64 << 53) + 1).size(), "8589934592.0 MB");
}

/// The sizes as the floating-point formatting writes them.
fn float_size(n: u64) -> String {
    match n {
        0 => "empty".to_owned(),
        n if n < 1024 => format!("{n} bytes"),
        n if n < 1024 * 1024 => format!("{:.0} KB", n as f64 / 1024.0),
        n => format!("{:.1} MB", n as f64 / (1024.0 * 1024.0)),
    }
}

#[test]
fn sizes_agree_with_floating_point_formatting() {
    let mut samples: Vec<u64> = Vec::new();
    for k in 0..3000u64 {
        samples.push(k * 512);
        samples.push(k * 262_144);
        samples.push(k * 262_144 + 1);
        samples.push(k * 104_857 + 7);
    }
    for shift in 50..64u32 {
        let base = 1u64 << shift;
        for d in 0..40u64 {
            samples.push(base + d);
            samples.push(base.wrapping_sub(d));
            samples.push(base | (d << (shift - 12)));
        }
    }
    samples.push(u64::MAX);
    for n in samples {
        assert_eq!(sized(n).size(), float_size(n), "for {n} bytes");
    }
}

#[test]
fn pushing_one_one_two_adds_two_snapshots() {
    // The decision push_history makes: new content is added, the same
    // content again is not.
    let first = added(plan_snapshot(b"one", None, 0));
    let h1 = hash_of(b"one");
    assert!(matches!(plan_snapshot(b"one", Some(&h1), first.sequence), SnapshotPlan::Unchanged));
    let second = added(plan_snapshot(b"two", Some(&h1), first.sequence));
    assert_eq!((first.sequence, second.sequence), (1, 2));
}
