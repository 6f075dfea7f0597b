use antler::block::{RT_DEL_POINT, RT_SET};
use antler::bloom::BloomFilter;
use antler::cache::BlockCache;
use antler::hash::{crc32, xxhash};
use antler::manifest::{decimal_padded, file_name, format_entry};
use antler::segment::{Segment, SegmentWriter};
use antler::store::{parent_path, Store};
use antler::wal::{replay, GroupCommitWAL, WALEntry};

fn seg_bytes(entries: &[(&str, Option<&str>, u64)]) -> Vec<u8> {
    let mut w = SegmentWriter::new(7, "t.seg".to_string());
    for (k, v, s) in entries {
        match v {
            Some(v) => w.add(RT_SET, k.as_bytes(), Some(v.as_bytes()), *s),
            None => w.add(RT_DEL_POINT, k.as_bytes(), None, *s),
        }
    }
    w.finish().ok().unwrap().data
}

#[test]
fn crc32_check_value() {
    assert_eq!(crc32(b"123456789"), 0xCBF43926);
    assert_eq!(crc32(b""), 0);
}

#[test]
fn hash_is_deterministic_and_seeded() {
    assert_eq!(xxhash(b"users/alice", 3), xxhash(b"users/alice", 3));
    assert_ne!(xxhash(b"users/alice", 0), xxhash(b"users/alice", 1));
    assert_eq!(xxhash(b"", 5), 5);
}

#[test]
fn bloom_admits_added_keys() {
    let mut b = BloomFilter::new(10000, 7);
    assert!(!b.might_contain(b"k1"));
    for i in 0..200u32 {
        b.add(format!("key{}", i).as_bytes());
    }
    for i in 0..200u32 {
        assert!(b.might_contain(format!("key{}", i).as_bytes()));
    }
    let mut false_hits = 0;
    for i in 0..1000u32 {
        if b.might_contain(format!("absent{}", i).as_bytes()) {
            false_hits += 1;
        }
    }
    assert!(false_hits < 50);
}

#[test]
fn segment_round_trip() {
    let mut entries: Vec<(String, String, u64)> = Vec::new();
    for i in 0..500u64 {
        entries.push((format!("a/k{:04}", i), format!("value-{}", i), i + 1));
    }
    let mut w = SegmentWriter::new(1, "l0_1.seg".to_string());
    for (k, v, s) in &entries {
        w.add(RT_SET, k.as_bytes(), Some(v.as_bytes()), *s);
    }
    let seg = w.finish().ok().unwrap();
    assert!(seg.index.len() > 1);
    let reopened = Segment::open(2, "l0_1.seg".to_string(), seg.data.clone()).ok().unwrap();
    assert_eq!(reopened.seq_high, 500);
    assert_eq!(reopened.index.len(), seg.index.len());
    assert_eq!(reopened.index_start, seg.index_start);
    let mut cache = BlockCache::new(1 << 20);
    for (k, v, s) in &entries {
        let got = reopened.lookup(k.as_bytes(), &mut cache).unwrap();
        assert_eq!(got.0, RT_SET);
        assert_eq!(got.1, v.as_bytes().to_vec());
        assert_eq!(got.2, *s);
    }
    assert!(reopened.lookup(b"a/zzz", &mut cache).is_none());
    assert!(reopened.lookup(b"0", &mut cache).is_none());
    let scanned = reopened.scan(b"a/k01", b"a/k02", &mut cache);
    assert_eq!(scanned.len(), 100);
    for (i, e) in scanned.iter().enumerate() {
        assert_eq!(e.key, format!("a/k{:04}", 100 + i).into_bytes());
        assert_eq!(e.seq, 101 + i as u64);
    }
}

#[test]
fn segment_lookup_reports_tombstones() {
    let data = seg_bytes(&[("a", Some("1"), 1), ("b", None, 2), ("c", Some("3"), 3)]);
    let seg = Segment::open(0, "s".to_string(), data).ok().unwrap();
    let mut cache = BlockCache::new(1 << 16);
    assert_eq!(seg.lookup(b"b", &mut cache), Some((RT_DEL_POINT, Vec::new(), 2)));
    assert_eq!(seg.lookup(b"c", &mut cache), Some((RT_SET, b"3".to_vec(), 3)));
    assert!(seg.lookup(b"bb", &mut cache).is_none());
    let all = seg.scan(b"a", b"z", &mut cache);
    assert_eq!(all.len(), 2);
}

#[test]
fn segment_bad_magic_is_corruption() {
    let mut data = seg_bytes(&[("a", Some("1"), 1)]);
    data[0] = b'X';
    match Segment::open(0, "bad.seg".to_string(), data) {
        Err(antler::errors::AntlerError::SegmentCorruption { .. }) => {}
        _ => panic!("expected corruption"),
    }
    assert!(Segment::open(0, "short".to_string(), b"ELKYN03".to_vec()).is_err());
}

#[test]
fn segment_layout_is_fixed() {
    let data = seg_bytes(&[("k", Some("v"), 9)]);
    assert_eq!(&data[0..7], b"ELKYN03");
    // record: seq, kind, klen, vlen, key, value
    assert_eq!(&data[7..15], &9u64.to_le_bytes());
    assert_eq!(data[15], 1);
    assert_eq!(&data[16..20], &1u32.to_le_bytes());
    assert_eq!(&data[20..24], &1u32.to_le_bytes());
    assert_eq!(data[24], b'k');
    assert_eq!(data[25], b'v');
    let n = data.len();
    let footer = &data[n - 32..];
    assert_eq!(&footer[8..16], &9u64.to_le_bytes());
    assert_eq!(&footer[16..20], &1u32.to_le_bytes());
    assert_eq!(&footer[24..28], &1250u32.to_le_bytes());
    assert_eq!(&footer[28..32], &7u32.to_le_bytes());
}

#[test]
fn cache_stays_within_limit() {
    let file: Vec<u8> = (0..255u8).collect();
    let mut cache = BlockCache::new(100);
    for off in 0..5u64 {
        let got = cache.get_or_load(1, off * 40, &file, off * 40 + 40);
        assert_eq!(got, file[(off * 40) as usize..(off * 40 + 40) as usize].to_vec());
        assert!(cache.size <= 100);
    }
    let again = cache.get_or_load(1, 160, &file, 200);
    assert_eq!(again, file[160..200].to_vec());
}

fn entry(seq: u64, kind: u8, key: &str, value: Option<&str>) -> WALEntry {
    WALEntry { seq, kind, key: key.as_bytes().to_vec(), value: value.map(|v| v.as_bytes().to_vec()) }
}

#[test]
fn wal_replays_whole_frames_only() {
    let mut wal = GroupCommitWAL::new();
    assert!(!wal.append(entry(1, RT_SET, "a/b", Some("1"))));
    wal.append(entry(2, RT_DEL_POINT, "a/b", None));
    wal.append(entry(3, 3, "a/", None));
    let bytes = wal.drain_frames(0);
    assert_eq!(&bytes[0..4], b"WAL2");
    assert!(wal.buffer.is_empty());
    assert!(wal.drain_frames(10).is_empty());
    let back = replay(&bytes).ok().unwrap();
    assert_eq!(back.len(), 3);
    assert_eq!(back[0].value, Some(b"1".to_vec()));
    assert_eq!(back[2].key, b"a/".to_vec());
    let torn = replay(&bytes[..bytes.len() - 3]).ok().unwrap();
    assert_eq!(torn.len(), 2);
    let mut damaged = bytes.clone();
    let last = damaged.len() - 6;
    damaged[last] ^= 0xff;
    assert_eq!(replay(&damaged).ok().unwrap().len(), 2);
    assert!(replay(b"NOPE").ok().unwrap().is_empty());
}

#[test]
fn wal_append_signals_sync() {
    let mut wal = GroupCommitWAL::new();
    let mut due = false;
    for i in 0..101u64 {
        due = wal.append(entry(i, RT_DEL_POINT, "x", None));
    }
    assert!(due);
    let later = wal.drain_frames(4);
    assert_ne!(&later[0..4], b"WAL2");
}

#[test]
fn basic_point_round_trip() {
    let mut s = Store::new();
    s.set("a/b", "1", false).ok().unwrap();
    s.set("a/c", "2", false).ok().unwrap();
    assert_eq!(s.get("a/b"), Some("1".to_string()));
    assert_eq!(s.get("a/c"), Some("2".to_string()));
    assert_eq!(s.get("a/d"), None);
}

#[test]
fn tree_invariant_rejects_write_under_scalar() {
    let mut s = Store::new();
    s.set("a", "1", false).ok().unwrap();
    let seq = s.seq;
    match s.set("a/b", "2", false) {
        Err(antler::errors::AntlerError::TreeStructureViolation { parent, .. }) => assert_eq!(parent, "a"),
        _ => panic!("expected a tree violation"),
    }
    assert_eq!(s.seq, seq);
    assert_eq!(s.get("a"), Some("1".to_string()));
    assert_eq!(s.get("a/b"), None);
    assert!(s.set("a/b/c", "3", false).is_err());
}

#[test]
fn subtree_replace() {
    let mut s = Store::new();
    s.set("u/x", "1", false).ok().unwrap();
    s.set("u/y", "2", false).ok().unwrap();
    s.set("u", "R", true).ok().unwrap();
    assert_eq!(s.get("u"), Some("R".to_string()));
    assert_eq!(s.get("u/x"), None);
    assert_eq!(s.get("u/y"), None);
    assert_eq!(s.wal.buffer.len(), 5);
    assert_eq!(s.wal.buffer[2].seq, s.wal.buffer[4].seq);
}

#[test]
fn subtree_delete_then_overwrite() {
    let mut s = Store::new();
    s.set("p/a", "1", false).ok().unwrap();
    s.delete_subtree("p");
    assert_eq!(s.get("p/a"), None);
    s.set("p/a", "2", false).ok().unwrap();
    assert_eq!(s.get("p/a"), Some("2".to_string()));
}

#[test]
fn delete_subtree_keeps_scalar_at_prefix() {
    let mut s = Store::new();
    s.set("q", "top", false).ok().unwrap();
    s.delete_subtree("q/");
    assert_eq!(s.get("q"), Some("top".to_string()));
}

#[test]
fn point_delete_hides_value() {
    let mut s = Store::new();
    s.set("k", "v", false).ok().unwrap();
    s.delete("k");
    assert_eq!(s.get("k"), None);
    assert_eq!(s.seq, 2);
}

#[test]
fn subtree_read_renders_object() {
    let mut s = Store::new();
    assert_eq!(s.get("users/"), None);
    s.set("users/alice", "A", false).ok().unwrap();
    s.set("users/bob", "say \"hi\"", false).ok().unwrap();
    s.set("other", "x", false).ok().unwrap();
    assert_eq!(s.get("users/"), Some("{\"alice\":\"A\",\"bob\":\"say \\\"hi\\\"\"}".to_string()));
}

#[test]
fn flush_then_read_from_segments() {
    let mut s = Store::new();
    let value = "v".repeat(100);
    for round in 0..2u32 {
        for i in 0..2300u32 {
            s.set(&format!("k/{:05}", i), &format!("{}-{}", value, round), false).ok().unwrap();
        }
    }
    assert_eq!(s.segments_l0.len(), 2);
    assert_eq!(s.sealed.len(), 2);
    let want = format!("{}-1", value);
    assert_eq!(s.get("k/00005"), Some(want.clone()));
    s.flush().ok().unwrap();
    assert_eq!(s.memtable.entries.len(), 0);
    assert_eq!(s.get("k/02299"), Some(want));
    assert_eq!(s.get("k/99999"), None);
    let listed = s.get("k/");
    assert!(listed.unwrap().contains("\"00001\":"));
}

#[test]
fn flushed_store_reopens_from_files() {
    let mut s = Store::new();
    s.set("a/b", "1", false).ok().unwrap();
    s.set("a/c", "2", false).ok().unwrap();
    s.flush().ok().unwrap();
    let file = &s.sealed[0];
    assert_eq!(file.name, "l0_0000000002.seg");
    assert_eq!(file.manifest_line, b"2|0|l0_0000000002.seg\n".to_vec());
    let mut t = Store::new();
    t.attach_segment(0, file.name.clone(), file.data.clone()).ok().unwrap();
    assert_eq!(t.seq, 2);
    assert_eq!(t.get("a/b"), Some("1".to_string()));
    assert_eq!(t.get("a/"), Some("{\"b\":\"1\",\"c\":\"2\"}".to_string()));
}

#[test]
fn replay_rebuilds_memtable() {
    let mut s = Store::new();
    s.set("x/y", "1", false).ok().unwrap();
    s.set("z", "2", false).ok().unwrap();
    s.delete("z");
    s.delete_subtree("x");
    let bytes = s.wal.drain_frames(0);
    let mut t = Store::new();
    t.apply_wal(&replay(&bytes).ok().unwrap());
    assert_eq!(t.seq, 4);
    assert_eq!(t.get("x/y"), None);
    assert_eq!(t.get("z"), None);
    t.set("x/y", "3", false).ok().unwrap();
    assert_eq!(t.get("x/y"), Some("3".to_string()));
}

#[test]
fn parent_of_paths() {
    assert_eq!(parent_path("users/alice/name"), Some("users/alice".to_string()));
    assert_eq!(parent_path("users"), None);
    assert_eq!(parent_path("/users"), None);
}

#[test]
fn manifest_lines_and_names() {
    assert_eq!(format_entry(42, 1, "l1_0000000042.seg"), b"42|1|l1_0000000042.seg\n".to_vec());
    assert_eq!(file_name(0, 7), "l0_0000000007.seg");
    assert_eq!(decimal_padded(12345678901, 10), b"12345678901".to_vec());
}

#[test]
fn manifest_parse_skips_malformed_lines() {
    let text = b"5|0|l0_0000000005.seg\n  7|1|l1_0000000007.seg \nbroken line\n9|x|bad.seg\n1|2|a|b\n+3|2|l2_0000000003.seg\n99999999999999999999|0|huge.seg\n8|0|torn";
    let entries = antler::manifest::parse_manifest(text);
    assert_eq!(entries.len(), 4);
    assert_eq!(entries[0].seq_high, 5);
    assert_eq!(entries[0].level, 0);
    assert_eq!(entries[0].filename, "l0_0000000005.seg");
    assert_eq!(entries[1].seq_high, 7);
    assert_eq!(entries[1].filename, "l1_0000000007.seg");
    assert_eq!(entries[2].seq_high, 3);
    assert_eq!(entries[2].level, 2);
    assert_eq!(entries[3].filename, "torn");
    assert!(antler::manifest::parse_manifest(b"").is_empty());
}

#[test]
fn wal_damage_before_intact_frames_is_corruption() {
    let mut wal = GroupCommitWAL::new();
    wal.append(entry(1, RT_SET, "a", Some("1")));
    wal.append(entry(2, RT_SET, "b", Some("2")));
    let mut bytes = wal.drain_frames(0);
    bytes[4 + 4 + 3] ^= 0xff;
    match replay(&bytes) {
        Err(antler::errors::AntlerError::WalCorruption { position, .. }) => assert_eq!(position, 4),
        _ => panic!("expected corruption"),
    }
}

#[test]
fn flushed_delete_stays_deleted() {
    let mut s = Store::new();
    s.set("p", "v0", false).ok().unwrap();
    s.flush().ok().unwrap();
    s.delete("p");
    s.flush().ok().unwrap();
    assert_eq!(s.segments_l0.len(), 2);
    assert_eq!(s.get("p"), None);
    s.set("p", "v1", false).ok().unwrap();
    s.flush().ok().unwrap();
    assert_eq!(s.get("p"), Some("v1".to_string()));
}

#[test]
fn manifest_trims_unicode_space() {
    let text = "\u{000B}5|0|a.seg\u{00A0}\n\u{3000}6|1|b.seg\u{000C}\n".as_bytes();
    let entries = antler::manifest::parse_manifest(text);
    assert_eq!(entries.len(), 2);
    assert_eq!(entries[0].filename, "a.seg");
    assert_eq!(entries[1].seq_high, 6);
    assert_eq!(entries[1].filename, "b.seg");
}

#[test]
fn subtree_read_masks_point_deletes() {
    let mut s = Store::new();
    s.set("u/a", "1", false).ok().unwrap();
    s.set("u/b", "2", false).ok().unwrap();
    s.flush().ok().unwrap();
    s.delete("u/a");
    assert_eq!(s.get("u/a"), None);
    assert_eq!(s.get("u/"), Some("{\"b\":\"2\"}".to_string()));
    s.delete("u/b");
    assert_eq!(s.get("u/"), None);
}

#[test]
fn wal_frames_stay_until_written() {
    let mut wal = GroupCommitWAL::new();
    wal.append(entry(1, RT_SET, "a", Some("1")));
    wal.append(entry(2, RT_DEL_POINT, "a", None));
    let first = wal.pending_frames(0);
    assert_eq!(wal.buffer.len(), 2);
    assert_eq!(wal.pending_frames(0), first);
    wal.append(entry(3, RT_SET, "b", Some("2")));
    wal.drop_written(2);
    assert_eq!(wal.buffer.len(), 1);
    assert_eq!(wal.buffer[0].seq, 3);
    assert_eq!(replay(&first).ok().unwrap().len(), 2);
}

#[test]
fn manifest_line_reads_back() {
    let line = format_entry(1234567890123, 2, "l2_0000000042.seg");
    let entries = antler::manifest::parse_manifest(&line);
    assert_eq!(entries.len(), 1);
    assert_eq!(entries[0].seq_high, 1234567890123);
    assert_eq!(entries[0].level, 2);
    assert_eq!(entries[0].filename, "l2_0000000042.seg");
}

#[test]
fn flush_lists_largest_sequence_number() {
    let mut s = Store::new();
    s.set("a", "1", false).ok().unwrap();
    s.set("b", "2", false).ok().unwrap();
    s.delete("a");
    s.flush().ok().unwrap();
    assert_eq!(s.sealed[0].manifest_line, b"3|0|l0_0000000003.seg\n".to_vec());
    assert_eq!(s.segments_l0[0].seq_high, 3);
    assert_eq!(s.segments_l0[0].max_record_seq(), 3);
}

#[test]
fn reopen_recovers_counter_from_records() {
    let mut s = Store::new();
    for i in 0..5u32 {
        s.set(&format!("k{}", i), "v", false).ok().unwrap();
    }
    s.flush().ok().unwrap();
    let file = &s.sealed[0];
    let mut t = Store::new();
    t.attach_segment(1, file.name.clone(), file.data.clone()).ok().unwrap();
    assert_eq!(t.seq, 5);
    assert_eq!(t.segments_l1.len(), 1);
    assert_eq!(t.get("k4"), Some("v".to_string()));
    t.set("k9", "w", false).ok().unwrap();
    assert_eq!(t.seq, 6);
}
