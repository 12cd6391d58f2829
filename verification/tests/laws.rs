use strenor::classic::Strenor;
use strenor::crc::crc32;
use strenor::errors::{IoError, ListError, TxError, WrongType, ZAddError};
use strenor::log::{put_frames, read_records, LogBase, LogWrite};
use strenor::score::OrderedF64;
use strenor::snapshot::VERSION;
use strenor::store::Store;

fn b(s: &str) -> Vec<u8> {
    s.as_bytes().to_vec()
}

fn f(x: f64) -> OrderedF64 {
    OrderedF64(x.to_bits())
}

/// Carry out on the contents of a log file what is owed to it.
fn settle(s: &mut Store, log: &mut Vec<u8>) {
    let w: LogWrite = s.take_log_write();
    match w.base {
        LogBase::Whole => {}
        LogBase::Prefix(n) => log.truncate(n as usize),
        LogBase::Nothing => log.clear(),
    }
    log.extend_from_slice(&w.bytes);
}

/// Put one key of every structure type into a store.
fn fill(s: &mut Store) {
    s.set_at("bytes".into(), b("v"), Some(1_000), 10).unwrap();
    s.set_at("empty".into(), Vec::new(), None, 10).unwrap();
    s.push_back_at("list", b("b"), 10).unwrap();
    s.push_front_at("list", b("a"), 10).unwrap();
    s.hset_at("hash", "f2".into(), b("2"), 10).unwrap();
    s.hset_at("hash", "f1".into(), b("1"), 10).unwrap();
    s.sadd_at("set", b("y"), 10).unwrap();
    s.sadd_at("set", b("x"), 10).unwrap();
    s.zadd_at("zset", f(2.5), b("m"), 10).unwrap();
    s.zadd_at("zset", f(-1.0), b("n"), 10).unwrap();
    s.expire_at("hash", 5_000, 10).unwrap();
}

#[test]
fn snapshot_gives_back_every_type() {
    let mut s = Store::new();
    fill(&mut s);
    let bytes = s.dump_bytes();
    let mut fresh = Store::new();
    fresh.load_bytes(&bytes).unwrap();
    assert_eq!(fresh.dump_bytes(), bytes);
    assert_eq!(fresh.get_at("bytes", 1_009), Ok(Some(b("v"))));
    assert_eq!(fresh.ttl_at("hash", 10), 5_000);
    assert_eq!(fresh.lrange_at("list", 0, -1, 10), Ok(vec![b("a"), b("b")]));
    assert_eq!(fresh.smembers_at("set", 10), Ok(vec![b("x"), b("y")]));
    assert_eq!(fresh.zrange_at("zset", 0, -1, 10), Ok(vec![b("n"), b("m")]));
}

#[test]
fn snapshot_bytes_are_as_documented() {
    let mut s = Store::new();
    s.set_at("k".into(), b("vv"), Some(7), 3).unwrap();
    let mut want = b("STRN");
    want.extend_from_slice(&[6, 0]);
    want.extend_from_slice(&1u32.to_le_bytes());
    want.extend_from_slice(&1u32.to_le_bytes());
    want.extend_from_slice(b"k");
    want.extend_from_slice(&10u64.to_le_bytes());
    want.push(0);
    want.extend_from_slice(&2u32.to_le_bytes());
    want.extend_from_slice(b"vv");
    let crc = crc32(&want);
    want.extend_from_slice(&crc.to_le_bytes());
    assert_eq!(s.dump_bytes(), want);
}

#[test]
fn snapshots_of_older_versions_load() {
    let mut s = Store::new();
    fill(&mut s);
    let bytes = s.dump_bytes();
    for version in 2..=VERSION {
        let mut old = bytes[..bytes.len() - 4].to_vec();
        old[4] = version;
        if version >= 3 {
            let crc = crc32(&old);
            old.extend_from_slice(&crc.to_le_bytes());
        }
        let mut fresh = Store::new();
        fresh.load_bytes(&old).unwrap();
        assert_eq!(fresh.dump_bytes(), bytes);
    }
}

#[test]
fn plain_snapshot_loads_into_the_store() {
    let mut p = Strenor::new();
    p.set_at("a".into(), b("1"), None, 5);
    p.set_at("b".into(), b("2"), Some(100), 5);
    let bytes = p.dump();
    let mut again = Strenor::new();
    again.load(&bytes).unwrap();
    assert_eq!(again.get_at("a", 6), Some(b("1")));
    assert_eq!(again.ttl_at("b", 6), 99);
    let mut s = Store::new();
    s.load_bytes(&bytes).unwrap();
    assert_eq!(s.get_at("a", 6), Ok(Some(b("1"))));
    assert_eq!(s.ttl_at("b", 6), 99);
    assert_eq!(s.size(), 2);
}

#[test]
fn one_changed_byte_of_a_snapshot_is_found() {
    let mut s = Store::new();
    fill(&mut s);
    let bytes = s.dump_bytes();
    for i in 0..bytes.len() {
        let mut bad = bytes.clone();
        bad[i] ^= 0x40;
        let mut fresh = Store::new();
        fresh.set_at("kept".into(), b("x"), None, 1).unwrap();
        let e = fresh.load_bytes(&bad).unwrap_err();
        if i > 4 {
            assert_eq!(e.message(), "checksum mismatch: snapshot is corrupted");
        }
        // a refused snapshot changes nothing
        assert_eq!(fresh.get_at("kept", 1), Ok(Some(b("x"))));
    }
    // the version alone can hide the checksum
    let mut bad = bytes.clone();
    bad[4] = 2;
    assert!(Store::new().load_bytes(&bad).is_ok());
}

#[test]
fn no_part_of_a_snapshot_loads_but_the_whole() {
    let mut s = Store::new();
    fill(&mut s);
    let bytes = s.dump_bytes();
    for n in 0..bytes.len() {
        assert!(Store::new().load_bytes(&bytes[..n]).is_err());
    }
    assert!(Store::new().load_bytes(&bytes).is_ok());
}

#[test]
fn every_snapshot_fault_has_its_message() {
    fn fault(data: &[u8]) -> String {
        Store::new().load_bytes(data).unwrap_err().0
    }
    fn v2(entries: &[u8]) -> Vec<u8> {
        let mut d = b("STRN");
        d.extend_from_slice(&[2, 0, 1, 0, 0, 0]);
        d.extend_from_slice(entries);
        d
    }
    assert_eq!(fault(b"STRN"), "snapshot too small");
    assert_eq!(fault(b"STRN\x06\0\0\0\0\0"), "snapshot too small");
    assert_eq!(
        fault(b"NOPE\x06\0\0\0\0\0"),
        "bad magic: not a Strenor snapshot"
    );
    assert_eq!(
        fault(b"STRN\x07\0\0\0\0\0"),
        "unsupported snapshot version"
    );
    assert_eq!(
        fault(b"STRN\x00\0\0\0\0\0"),
        "unsupported snapshot version"
    );
    assert_eq!(
        fault(b"STRN\x06\0\0\0\0\0\0\0\0\0"),
        "checksum mismatch: snapshot is corrupted"
    );
    assert_eq!(fault(&v2(b"")), "snapshot truncated");
    assert_eq!(fault(&v2(b"\x01\0\0\0\xff")), "invalid utf8 key");
    assert_eq!(
        fault(&v2(b"\x01\0\0\0k\0\0\0\0\0\0\0\0\x05")),
        "unknown entry type in snapshot"
    );
    assert_eq!(
        fault(&v2(
            b"\x01\0\0\0k\0\0\0\0\0\0\0\0\x02\x01\0\0\0\x01\0\0\0\xfe"
        )),
        "invalid utf8 hash field"
    );
}

#[test]
fn a_score_that_is_no_number_is_passed_over_in_a_snapshot() {
    let mut d = b("STRN");
    d.extend_from_slice(&[2, 0, 1, 0, 0, 0]);
    d.extend_from_slice(b"\x01\0\0\0z\0\0\0\0\0\0\0\0\x04\x02\0\0\0");
    d.extend_from_slice(&f64::NAN.to_bits().to_le_bytes());
    d.extend_from_slice(b"\x01\0\0\0a");
    d.extend_from_slice(&1.5f64.to_bits().to_le_bytes());
    d.extend_from_slice(b"\x01\0\0\0b");
    let mut s = Store::new();
    s.load_bytes(&d).unwrap();
    assert_eq!(s.zrange_at("z", 0, -1, 1), Ok(vec![b("b")]));
}

#[test]
fn records_are_read_back_up_to_any_cut() {
    let records = vec![b("one"), Vec::new(), b("three")];
    let mut log: Vec<u8> = Vec::new();
    put_frames(&mut log, &records);
    assert_eq!(log.len(), 3 * 8 + 8);
    assert_eq!(read_records(&log), (records.clone(), None));
    let ends = [0usize, 11, 19, 32];
    for n in 0..=log.len() {
        let (got, damaged) = read_records(&log[..n]);
        let whole = ends.iter().filter(|e| **e <= n).count() - 1;
        assert_eq!(got, records[..whole].to_vec());
        let clean = ends[whole] == n;
        assert_eq!(damaged, if clean { None } else { Some(ends[whole] as u64) });
        // cut back to the damage, the log is clean
        assert_eq!(read_records(&log[..ends[whole]]), (got, None));
    }
}

#[test]
fn one_changed_byte_of_a_record_is_found() {
    let records = vec![b("one"), b("two"), b("three")];
    let mut log: Vec<u8> = Vec::new();
    put_frames(&mut log, &records);
    for i in 11 + 4..22 {
        let mut bad = log.clone();
        bad[i] ^= 0x01;
        assert_eq!(read_records(&bad), (vec![b("one")], Some(11)));
    }
}

#[test]
fn one_changed_byte_changes_the_checksum() {
    let data = b("some bytes to protect");
    for i in 0..data.len() {
        for bit in 0..8 {
            let mut bad = data.clone();
            bad[i] ^= 1 << bit;
            assert_ne!(crc32(&bad), crc32(&data));
        }
    }
}

#[test]
fn what_a_store_holds_is_what_it_recovers() {
    let mut log: Vec<u8> = Vec::new();
    let (mut s, _) = Store::with_aof(&log, true);
    fill(&mut s);
    s.pop_front_at("list", 11).unwrap();
    s.hdel_at("hash", "f1", 11).unwrap();
    s.srem_at("set", b"x", 11).unwrap();
    s.zrem_at("zset", b"m", 11).unwrap();
    s.zincrby_at("zset", f(1.0), f(0.0), b("n"), 11).unwrap();
    s.persist("hash").unwrap();
    s.del("empty").unwrap();
    let w = s.take_log_write();
    assert!(w.sync && w.base == LogBase::Whole);
    log.extend_from_slice(&w.bytes);
    assert_eq!(s.aof_size(), log.len() as u64);
    let (again, rec) = Store::with_aof(&log, false);
    assert_eq!(again.dump_bytes(), s.dump_bytes());
    assert_eq!(rec.applied, 18);
    assert!(!rec.truncated);
    assert_eq!(again.aof_size(), log.len() as u64);
    s.clear().unwrap();
    settle(&mut s, &mut log);
    assert_eq!(Store::with_aof(&log, false).0.size(), 0);
}

#[test]
fn fsync_forces_every_write() {
    for fsync in [true, false] {
        let (mut s, _) = Store::with_aof(&[], fsync);
        s.set_at("k".into(), b("v"), None, 1).unwrap();
        assert_eq!(s.take_log_write().sync, fsync);
        s.del("k").unwrap();
        assert_eq!(s.take_log_write().sync, fsync);
        s.tx_begin().unwrap();
        s.set_at("k".into(), b("w"), None, 1).unwrap();
        s.tx_commit().unwrap();
        assert_eq!(s.take_log_write().sync, fsync);
    }
}

#[test]
fn a_key_that_expired_is_recovered_as_expired() {
    let mut log: Vec<u8> = Vec::new();
    let (mut s, _) = Store::with_aof(&log, false);
    s.set_at("k".into(), b("v"), Some(5), 10).unwrap();
    s.set_at("stays".into(), b("v"), None, 10).unwrap();
    assert_eq!(s.get_at("k", 20), Ok(None));
    settle(&mut s, &mut log);
    let (mut again, rec) = Store::with_aof(&log, false);
    assert_eq!(rec.applied, 3); // that the key is gone is recorded
    assert_eq!(again.size(), 1);
    assert_eq!(again.keys_at(20), vec!["stays".to_string()]);
    assert_eq!(again.get_at("k", 20), Ok(None));
}

#[test]
fn an_add_to_an_expired_key_starts_anew_in_the_log_too() {
    let mut log: Vec<u8> = Vec::new();
    let (mut s, _) = Store::with_aof(&log, false);
    s.push_back_at("q", b("a"), 10).unwrap();
    s.expire_at("q", 0, 10).unwrap();
    assert_eq!(s.push_back_at("q", b("b"), 10), Ok(1));
    s.hset_at("h", "f".into(), b("1"), 10).unwrap();
    s.expire_at("h", 0, 10).unwrap();
    assert_eq!(s.hset_at("h", "g".into(), b("2"), 10), Ok(true));
    s.sadd_at("s", b("x"), 10).unwrap();
    s.expire_at("s", 0, 10).unwrap();
    assert_eq!(s.sadd_at("s", b("y"), 10), Ok(true));
    s.zadd_at("z", f(1.0), b("m"), 10).unwrap();
    s.expire_at("z", 0, 10).unwrap();
    assert_eq!(s.zincrby_at("z", f(2.0), f(9.0), b("m"), 10), Ok(f(2.0)));
    settle(&mut s, &mut log);
    let (mut again, _) = Store::with_aof(&log, false);
    assert_eq!(again.lrange_at("q", 0, -1, 10), Ok(vec![b("b")]));
    assert_eq!(again.ttl_at("q", 10), -1);
    assert_eq!(again.dump_bytes(), s.dump_bytes());
}

#[test]
fn a_sweep_is_recorded() {
    let mut log: Vec<u8> = Vec::new();
    let (mut s, _) = Store::with_aof(&log, false);
    s.set_at("a".into(), b("1"), Some(5), 10).unwrap();
    s.set_at("b".into(), b("2"), None, 10).unwrap();
    s.set_at("c".into(), b("3"), Some(5), 10).unwrap();
    assert_eq!(s.sweep_at(14), 0);
    assert_eq!(s.sweep_at(15), 2);
    settle(&mut s, &mut log);
    assert_eq!(s.aof_size(), log.len() as u64);
    let (mut again, rec) = Store::with_aof(&log, false);
    assert_eq!(rec.applied, 5);
    assert_eq!(again.dump_bytes(), s.dump_bytes());
    again.persist("a").unwrap();
    assert_eq!(again.size(), 1);
}

#[test]
fn a_rollback_brings_back_what_expired_in_the_transaction() {
    let (mut s, _) = Store::with_aof(&[], false);
    s.set_at("k".into(), b("v"), Some(5), 10).unwrap();
    let before = s.dump_bytes();
    s.take_log_write();
    s.tx_begin().unwrap();
    assert_eq!(s.get_at("k", 20), Ok(None));
    assert_eq!(s.sweep_at(20), 0);
    s.push_back_at("k", b("x"), 20).unwrap();
    s.tx_rollback().unwrap();
    assert_eq!(s.dump_bytes(), before);
    assert!(s.take_log_write().is_none());
}

#[test]
fn compaction_in_a_transaction_writes_what_was_before_it() {
    for commit in [false, true] {
        let mut log: Vec<u8> = Vec::new();
        let (mut s, _) = Store::with_aof(&log, false);
        s.set_at("k".into(), b("1"), None, 1).unwrap();
        s.set_at("gone".into(), b("x"), Some(5), 1).unwrap();
        settle(&mut s, &mut log);
        s.tx_begin().unwrap();
        s.set_at("k".into(), b("2"), None, 1).unwrap();
        s.set_at("new".into(), b("3"), None, 1).unwrap();
        s.persist("gone").unwrap();
        let n = s.compact_at(10).unwrap();
        assert_eq!(s.aof_size(), n);
        if commit {
            s.tx_commit().unwrap();
        } else {
            s.tx_rollback().unwrap();
        }
        log = s.take_log_write().bytes;
        let (mut again, rec) = Store::with_aof(&log, false);
        assert!(!rec.truncated);
        assert_eq!(again.dump_bytes(), s.dump_bytes());
        let want = if commit { b("2") } else { b("1") };
        assert_eq!(again.get_at("k", 10), Ok(Some(want)));
        // what had expired is not in the log; what the transaction made of it is
        assert_eq!(again.size(), if commit { 3 } else { 1 });
        assert_eq!(again.ttl_at("gone", 10), if commit { -1 } else { -2 });
    }
}

#[test]
fn compaction_in_a_transaction_leaves_out_what_had_expired() {
    let fill = |s: &mut Store| {
        s.set_at("stays".into(), b("1"), None, 1).unwrap();
        s.set_at("dead".into(), b("2"), Some(5), 1).unwrap();
        s.push_back_at("list", b("a"), 1).unwrap();
        s.expire_at("list", 5, 1).unwrap();
        s.hset_at("hash", "f".into(), b("v"), 1).unwrap();
        s.expire_at("hash", 5, 1).unwrap();
    };
    // the compacted log is that of what stays
    let (mut alone, _) = Store::with_aof(&[], false);
    alone.set_at("stays".into(), b("1"), None, 1).unwrap();
    let want = alone.take_log_write().bytes;

    let (mut s, _) = Store::with_aof(&[], false);
    fill(&mut s);
    s.tx_begin().unwrap();
    s.push_back_at("list", b("b"), 2).unwrap(); // while it is still there
    s.expire_at("list", 100, 2).unwrap();
    s.hset_at("hash", "g".into(), b("w"), 2).unwrap(); // expires with the rest
    assert_eq!(s.compact_at(10), Ok(want.len() as u64));
    assert_eq!(s.lrange_at("list", 0, -1, 10), Ok(vec![b("a"), b("b")]));
    assert_eq!(s.ttl_at("list", 10), 92);
    s.tx_commit().unwrap();
    let log = s.take_log_write().bytes;
    assert_eq!(&log[..want.len()], &want[..]);
    let (mut again, rec) = Store::with_aof(&log, false);
    assert!(!rec.truncated);
    assert_eq!(again.dump_bytes(), s.dump_bytes());
    assert_eq!(again.keys_at(10), vec!["list".to_string(), "stays".to_string()]);
    assert_eq!(again.lrange_at("list", 0, -1, 10), Ok(vec![b("a"), b("b")]));

    let (mut s, _) = Store::with_aof(&[], false);
    fill(&mut s);
    s.tx_begin().unwrap();
    s.push_back_at("list", b("b"), 2).unwrap();
    s.compact_at(10).unwrap();
    s.tx_rollback().unwrap();
    assert_eq!(s.take_log_write().bytes, want);
    assert_eq!(s.dump_bytes(), alone.dump_bytes());
}

#[test]
fn a_closed_store_refuses_to_commit_what_its_log_would_miss() {
    let (mut s, _) = Store::with_aof(&[], false);
    s.set_at("k".into(), b("1"), None, 1).unwrap();
    s.tx_begin().unwrap();
    s.set_at("k".into(), b("2"), None, 1).unwrap();
    s.close();
    assert_eq!(s.tx_commit(), Err(IoError::StoreClosed));
    assert!(!s.in_transaction());
    assert_eq!(s.get_at("k", 1), Ok(Some(b("1"))));
    assert_eq!(s.tx_commit(), Err(IoError::NoTransaction));
    // nothing was changed, so nothing is lost
    let mut s = Store::new();
    s.tx_begin().unwrap();
    s.close();
    assert_eq!(s.tx_commit(), Ok(()));
    // through a transaction that closes the store
    let (mut s, _) = Store::with_aof(&[], false);
    let out: Result<(), TxError<()>> = s.transact(|s: &mut Store| {
        s.set_at("k".into(), b("v"), None, 1).unwrap();
        s.close();
        Ok(())
    });
    assert!(matches!(out, Err(TxError::Io(IoError::StoreClosed))));
    assert_eq!(s.size(), 0);
}

#[test]
fn a_closed_store_that_never_had_a_log_commits() {
    let mut s = Store::new();
    s.tx_begin().unwrap();
    s.set_at("k".into(), b("v"), None, 1).unwrap();
    s.close();
    s.close();
    assert_eq!(s.tx_commit(), Ok(()));
    assert!(!s.in_transaction());
    assert_eq!(s.get_at("k", 1), Ok(Some(b("v"))));
    // closing twice does not make a store forget that it had a log
    let (mut s, _) = Store::with_aof(&[], false);
    s.tx_begin().unwrap();
    s.set_at("k".into(), b("v"), None, 1).unwrap();
    s.close();
    s.close();
    assert_eq!(s.tx_commit(), Err(IoError::StoreClosed));
    assert_eq!(s.size(), 0);
}

#[test]
fn a_burst_of_four_bytes_changes_the_crc() {
    let data: Vec<u8> = (0u8..40).collect();
    for p in 0..37 {
        let mut bad = data.clone();
        for (i, x) in [0x80u8, 0x01, 0xff, 0x10].iter().enumerate() {
            bad[p + i] ^= x;
        }
        assert_ne!(crc32(&bad), crc32(&data));
    }
}

#[test]
fn no_log_of_the_same_state_is_shorter() {
    let mut log: Vec<u8> = Vec::new();
    let (mut s, _) = Store::with_aof(&log, false);
    fill(&mut s);
    settle(&mut s, &mut log);
    let n = s.compact_at(10).unwrap();
    assert!(n <= log.len() as u64);
    let bytes = s.take_log_write().bytes;
    // once compacted, it stays as it is
    let (mut again, first) = Store::with_aof(&bytes, false);
    assert_eq!(again.compact_at(10), Ok(n));
    assert_eq!(again.take_log_write().bytes, bytes);
    let (_, second) = Store::with_aof(&bytes, false);
    assert_eq!(first, second);
}

#[test]
fn unreadable_records_are_passed_over() {
    let mut good = Store::with_aof(&[], false).0;
    good.set_at("k".into(), b("v"), None, 1).unwrap();
    let mut log = good.take_log_write().bytes;
    // no opcode, an unknown opcode, a key that is not UTF-8, a missing argument
    let records = vec![
        Vec::new(),
        vec![99, 0, 0, 0, 0],
        vec![2, 1, 0, 0, 0, 0xff],
        vec![3, 0, 0, 0, 0],
    ];
    put_frames(&mut log, &records);
    let (mut s, rec) = Store::with_aof(&log, false);
    assert_eq!(rec.applied, 1);
    assert!(!rec.truncated);
    assert_eq!(s.get_at("k", 1), Ok(Some(b("v"))));
    assert_eq!(s.size(), 1);
}

#[test]
fn reopening_after_a_torn_tail_is_clean() {
    let mut log: Vec<u8> = Vec::new();
    let (mut s, _) = Store::with_aof(&log, false);
    s.set_at("a".into(), b("1"), None, 1).unwrap();
    settle(&mut s, &mut log);
    let whole = log.len();
    s.set_at("b".into(), b("2"), None, 1).unwrap();
    settle(&mut s, &mut log);
    log.truncate(log.len() - 1);
    let (mut s2, rec) = Store::with_aof(&log, false);
    assert!(rec.truncated);
    assert_eq!(s2.aof_size(), whole as u64);
    let w = s2.take_log_write();
    assert_eq!(w.base, LogBase::Prefix(whole as u64));
    assert!(w.sync && w.bytes.is_empty());
    log.truncate(whole);
    let (mut s3, rec) = Store::with_aof(&log, false);
    assert!(!rec.truncated);
    assert!(s3.take_log_write().is_none());
    assert_eq!(s3.dump_bytes(), s2.dump_bytes());
}

#[test]
fn compaction_comes_to_what_is_live() {
    let mut log: Vec<u8> = Vec::new();
    let (mut s, _) = Store::with_aof(&log, false);
    fill(&mut s);
    s.set_at("dead".into(), b("x"), Some(1), 10).unwrap();
    settle(&mut s, &mut log);
    let n = s.compact_at(20).unwrap();
    let w = s.take_log_write();
    assert_eq!(w.base, LogBase::Nothing);
    assert_eq!(w.bytes.len() as u64, n);
    assert!(w.sync);
    assert_eq!(s.aof_size(), n);
    let (again, rec) = Store::with_aof(&w.bytes, false);
    assert!(!rec.truncated);
    s.sweep_at(20);
    assert_eq!(again.dump_bytes(), s.dump_bytes());
}

#[test]
fn rollback_is_as_if_nothing_had_run() {
    let mut log: Vec<u8> = Vec::new();
    let (mut s, _) = Store::with_aof(&log, false);
    fill(&mut s);
    settle(&mut s, &mut log);
    let before = s.dump_bytes();
    let size = s.aof_size();
    s.tx_begin().unwrap();
    s.clear().unwrap();
    fill(&mut s);
    s.del("bytes").unwrap();
    s.pop_back_at("list", 10).unwrap();
    s.zrem_at("zset", b"n", 10).unwrap();
    s.persist("hash").unwrap();
    s.set_at("new".into(), b("n"), None, 10).unwrap();
    s.tx_rollback().unwrap();
    assert_eq!(s.dump_bytes(), before);
    assert!(s.take_log_write().is_none());
    assert_eq!(s.aof_size(), size);
}

#[test]
fn commit_is_as_if_run_without_a_transaction() {
    let (mut plain, _) = Store::with_aof(&[], true);
    let (mut tx, _) = Store::with_aof(&[], true);
    fill(&mut plain);
    tx.tx_begin().unwrap();
    fill(&mut tx);
    assert!(tx.take_log_write().is_none()); // nothing before the commit
    tx.tx_commit().unwrap();
    assert_eq!(tx.dump_bytes(), plain.dump_bytes());
    assert_eq!(tx.aof_size(), plain.aof_size());
    let (a, c) = (tx.take_log_write(), plain.take_log_write());
    assert_eq!(a.bytes, c.bytes);
    assert!(a.sync && c.sync && a.base == c.base);
}

#[test]
fn an_open_transaction_is_not_recovered() {
    let mut log: Vec<u8> = Vec::new();
    let (mut s, _) = Store::with_aof(&log, false);
    s.set_at("a".into(), b("1"), None, 1).unwrap();
    s.tx_begin().unwrap();
    s.set_at("a".into(), b("2"), None, 1).unwrap();
    settle(&mut s, &mut log);
    assert_eq!(
        Store::with_aof(&log, false).0.get_at("a", 1),
        Ok(Some(b("1")))
    );
}

#[test]
fn operations_leave_other_keys_alone() {
    let mut s = Store::new();
    fill(&mut s);
    s.set_at("other".into(), b("o"), None, 10).unwrap();
    s.pop_front_at("list", 10).unwrap();
    s.del("bytes").unwrap();
    assert_eq!(s.hlen_at("hash", 10), Ok(2));
    assert_eq!(s.scard_at("set", 10), Ok(2));
    assert_eq!(s.zcard_at("zset", 10), Ok(2));
    assert_eq!(s.get_at("other", 10), Ok(Some(b("o"))));
}

#[test]
fn lists_are_queues_and_stacks() {
    let mut s = Store::new();
    for x in ["1", "2", "3"] {
        s.push_back_at("l", b(x), 1).unwrap();
    }
    assert_eq!(s.pop_front_at("l", 1).unwrap(), Some(b("1")));
    assert_eq!(s.pop_back_at("l", 1).unwrap(), Some(b("3")));
    let before = s.dump_bytes();
    s.push_front_at("l", b("x"), 1).unwrap();
    assert_eq!(s.pop_front_at("l", 1).unwrap(), Some(b("x")));
    assert_eq!(s.dump_bytes(), before);
}

#[test]
fn ranges_clamp_and_count_from_the_end() {
    let mut s = Store::new();
    for x in ["a", "b", "c", "d"] {
        s.push_back_at("l", b(x), 1).unwrap();
    }
    assert_eq!(s.lrange_at("l", -3, 2, 1), Ok(vec![b("b"), b("c")]));
    assert_eq!(s.lrange_at("l", -9, 0, 1), Ok(vec![b("a")]));
    assert_eq!(s.lrange_at("l", 3, 9, 1), Ok(vec![b("d")]));
    assert_eq!(s.lrange_at("l", 2, 1, 1), Ok(Vec::new()));
    assert_eq!(s.lrange_at("l", 0, -5, 1), Ok(Vec::new()));
}

#[test]
fn a_time_to_live_runs_down() {
    let mut s = Store::new();
    s.set_at("k".into(), b("v"), Some(100), 1_000).unwrap();
    assert_eq!(s.ttl_at("k", 1_001), 99);
    assert_eq!(s.ttl_at("k", 1_099), 1);
    s.expire_at("k", 50, 1_099).unwrap();
    assert_eq!(s.ttl_at("k", 1_100), 49);
    s.persist("k").unwrap();
    assert_eq!(s.ttl_at("k", u64::MAX), -1);
    s.expire_at("k", -5, 2_000).unwrap(); // a negative one is over at once
    assert_eq!(s.ttl_at("k", 2_000), -2);
    assert_eq!(s.size(), 0);
    s.set_at("z".into(), b("v"), Some(0), 1).unwrap(); // none at all
    assert_eq!(s.ttl_at("z", 5), -1);
    s.set_at("n".into(), b("v"), Some(-1), 1).unwrap();
    assert_eq!(s.ttl_at("n", 5), -1);
}

#[test]
fn keys_are_live_and_in_order() {
    let mut s = Store::new();
    s.set_at("b".into(), b("1"), None, 1).unwrap();
    s.set_at("a".into(), b("1"), Some(10), 1).unwrap();
    s.set_at("aa".into(), b("1"), None, 1).unwrap();
    assert_eq!(s.keys_at(5), vec!["a", "aa", "b"]);
    assert_eq!(s.keys_at(11), vec!["aa", "b"]);
    assert_eq!(s.size(), 3); // listing takes nothing out
    assert_eq!(s.sweep_at(11), 1);
    assert_eq!(s.sweep_at(11), 0);
    assert_eq!(s.keys_at(11), vec!["aa", "b"]);
    assert_eq!(s.size(), 2);
}

#[test]
fn members_and_fields_are_listed_in_order() {
    let mut s = Store::new();
    fill(&mut s);
    assert!(!s.sadd_at("set", b("x"), 10).unwrap());
    assert_eq!(s.smembers_at("set", 10), Ok(vec![b("x"), b("y")]));
    assert_eq!(s.hkeys_at("hash", 10), Ok(vec!["f1".to_string(), "f2".to_string()]));
    assert_eq!(
        s.hgetall_at("hash", 10),
        Ok(vec![("f1".to_string(), b("1")), ("f2".to_string(), b("2"))])
    );
    assert_eq!(s.hget_at("hash", "f1", 10), Ok(Some(b("1"))));
    assert!(s.hexists_at("hash", "f2", 10).unwrap());
    assert!(s.sismember_at("set", b"y", 10).unwrap());
}

#[test]
fn emptied_collections_go_with_their_key() {
    let mut s = Store::new();
    fill(&mut s);
    s.pop_back_at("list", 10).unwrap();
    s.pop_back_at("list", 10).unwrap();
    s.hdel_at("hash", "f1", 10).unwrap();
    s.hdel_at("hash", "f2", 10).unwrap();
    s.srem_at("set", b"x", 10).unwrap();
    s.srem_at("set", b"y", 10).unwrap();
    s.zrem_at("zset", b"m", 10).unwrap();
    s.zrem_at("zset", b"n", 10).unwrap();
    assert_eq!(s.keys_at(10), vec!["bytes", "empty"]);
    assert_eq!(s.pop_back_at("list", 10), Ok(None));
}

#[test]
fn a_wrong_type_changes_nothing() {
    let mut log: Vec<u8> = Vec::new();
    let (mut s, _) = Store::with_aof(&log, false);
    fill(&mut s);
    settle(&mut s, &mut log);
    let before = s.dump_bytes();
    assert_eq!(s.push_back_at("bytes", b("x"), 10), Err(ListError::WrongType));
    assert_eq!(s.pop_front_at("hash", 10), Err(ListError::WrongType));
    assert_eq!(s.hset_at("list", "f".into(), b("x"), 10), Err(ListError::WrongType));
    assert_eq!(s.hdel_at("set", "f", 10), Err(ListError::WrongType));
    assert_eq!(s.sadd_at("zset", b("x"), 10), Err(ListError::WrongType));
    assert_eq!(s.srem_at("bytes", b"x", 10), Err(ListError::WrongType));
    assert_eq!(s.zadd_at("list", f(1.0), b("x"), 10), Err(ZAddError::WrongType));
    assert_eq!(
        s.zincrby_at("set", f(1.0), f(1.0), b("x"), 10),
        Err(ZAddError::WrongType)
    );
    assert_eq!(s.zrem_at("hash", b"x", 10), Err(ListError::WrongType));
    assert_eq!(s.zincr_base_at("set", b"x", 10), Err(WrongType));
    assert_eq!(s.dump_bytes(), before);
    assert!(s.take_log_write().is_none());
}

#[test]
fn a_closed_store_says_so_and_stays() {
    let mut log: Vec<u8> = Vec::new();
    let (mut s, _) = Store::with_aof(&log, false);
    fill(&mut s);
    s.close();
    settle(&mut s, &mut log); // what was owed before is still owed
    assert_eq!(Store::with_aof(&log, false).0.dump_bytes(), s.dump_bytes());
    let closed = IoError::StoreClosed;
    assert_eq!(s.set_at("k".into(), b("v"), None, 10), Err(closed));
    assert_eq!(s.del("bytes"), Err(closed));
    assert_eq!(s.expire_at("bytes", 1, 10), Err(closed));
    assert_eq!(s.persist("bytes"), Err(closed));
    assert_eq!(s.clear(), Err(closed));
    assert_eq!(s.compact_at(10), Err(closed));
    assert_eq!(s.tx_begin(), Err(closed));
    assert_eq!(s.push_front_at("list", b("x"), 10), Err(ListError::Io(closed)));
    assert_eq!(s.pop_back_at("list", 10), Err(ListError::Io(closed)));
    assert_eq!(s.hset_at("hash", "f".into(), b("x"), 10), Err(ListError::Io(closed)));
    assert_eq!(s.hdel_at("hash", "f1", 10), Err(ListError::Io(closed)));
    assert_eq!(s.sadd_at("set", b("x"), 10), Err(ListError::Io(closed)));
    assert_eq!(s.srem_at("set", b"x", 10), Err(ListError::Io(closed)));
    assert_eq!(s.zadd_at("zset", f(1.0), b("x"), 10), Err(ZAddError::Io(closed)));
    assert_eq!(
        s.zincrby_at("zset", f(1.0), f(1.0), b("x"), 10),
        Err(ZAddError::Io(closed))
    );
    assert_eq!(s.zrem_at("zset", b"m", 10), Err(ListError::Io(closed)));
    assert_eq!(s.get_at("bytes", 10), Ok(Some(b("v"))));
    assert_eq!(s.llen_at("list", 10), Ok(2));
    assert_eq!(s.compact_at(10).unwrap_err().message(), "store is closed");
}

#[test]
fn errors_have_their_messages() {
    let mut s = Store::new();
    assert_eq!(s.tx_commit().unwrap_err().message(), "no transaction is open");
    assert_eq!(s.tx_rollback().unwrap_err().message(), "no transaction is open");
    s.tx_begin().unwrap();
    assert_eq!(s.tx_begin().unwrap_err().message(), "a transaction is already open");
    assert_eq!(ListError::WrongType.message(), "WRONGTYPE");
    assert_eq!(ListError::from(IoError::StoreClosed).message(), "store is closed");
    assert_eq!(ListError::from(WrongType), ListError::WrongType);
    assert_eq!(ZAddError::WrongType.message(), "WRONGTYPE");
    assert_eq!(ZAddError::BadScore.message(), "score is not a valid number");
    assert_eq!(ZAddError::from(IoError::NoTransaction).message(), "no transaction is open");
}

#[test]
fn increments_refuse_what_is_no_finite_sum() {
    let mut s = Store::new();
    let inf = f64::INFINITY;
    assert_eq!(
        s.zincrby_at("z", f(f64::NAN), f(f64::NAN), b("a"), 1),
        Err(ZAddError::BadScore)
    );
    assert_eq!(s.size(), 0);
    assert_eq!(s.zincr_base_at("z", b"a", 1), Ok(None));
    for first in [inf, -inf] {
        assert_eq!(
            s.zincrby_at("z", f(first), f(first), b("a"), 1),
            Err(ZAddError::BadScore)
        );
        assert!(!s.key_exists_at("z", 1));
    }
    assert_eq!(s.zadd_at("z", f(inf), b("a"), 1), Ok(true));
    assert_eq!(s.zincr_base_at("z", b"a", 1), Ok(Some(f(inf))));
    assert_eq!(s.zincr_base_at("z", b"new", 1), Ok(Some(f(0.0))));
    assert_eq!(
        s.zincrby_at("z", f(1.0), f(inf), b("a"), 1),
        Err(ZAddError::BadScore)
    );
    assert_eq!(s.zscore_at("z", b"a", 1), Ok(Some(f(inf))));
}
