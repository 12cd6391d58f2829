use std::time::{Duration, Instant};
use strenor::errors::{ListError, Recovery, TxError, WrongType, ZAddError};
use strenor::log::{LogBase, LogWrite};
use strenor::score::OrderedF64;
use strenor::snapshot::{MAGIC, TYPE_BYTES, TYPE_LIST};
use strenor::store::Store;

fn b(s: &str) -> Vec<u8> {
    s.as_bytes().to_vec()
}

fn f(x: f64) -> OrderedF64 {
    OrderedF64(x.to_bits())
}

/// Increment a score, the sum taken here.
fn incr(s: &mut Store, key: &str, delta: f64, member: Vec<u8>) -> Result<f64, ZAddError> {
    let base = match s.zincr_base(key, &member) {
        Ok(Some(x)) => f64::from_bits(x.0),
        _ => 0.0,
    };
    s.zincrby(key, f(delta), f(base + delta), member)
        .map(|x| f64::from_bits(x.0))
}

/// Let some time pass.
fn wait_ms(ms: u64) {
    let start = Instant::now();
    while start.elapsed() < Duration::from_millis(ms) {}
}

/// Carry out on the contents of a log file what is owed to it.
fn settle(s: &mut Store, log: &mut Vec<u8>) {
    let w: LogWrite = s.take_log_write();
    match w.base {
        LogBase::Whole => {}
        LogBase::Prefix(n) => log.truncate(n as usize),
        LogBase::Nothing => log.clear(),
    }
    log.extend_from_slice(&w.bytes);
}

#[test]
fn set_get_del() {
    let mut s = Store::new();
    s.set("a".into(), vec![1, 2, 3], None).unwrap();
    assert_eq!(s.get("a"), Ok(Some(vec![1, 2, 3])));
    assert!(s.key_exists("a"));
    assert!(s.del("a").unwrap());
    assert!(!s.del("a").unwrap());
    assert_eq!(s.get("a"), Ok(None));
}

#[test]
fn ttl_semantics() {
    let mut s = Store::new();
    s.set("k".into(), vec![0], None).unwrap();
    assert_eq!(s.ttl("k"), -1);
    assert_eq!(s.ttl("ghost"), -2);
    assert!(s.expire("k", 10_000).unwrap());
    assert!(s.ttl("k") > 0);
    assert!(s.persist("k").unwrap());
    assert_eq!(s.ttl("k"), -1);
    assert!(!s.expire("missing", 1000).unwrap());
    assert!(!s.persist("missing").unwrap());
}

#[test]
fn expiration_and_sweep() {
    let mut s = Store::new();
    s.set("x".into(), vec![0], Some(1)).unwrap();
    s.set("y".into(), vec![0], None).unwrap();
    wait_ms(10);
    assert_eq!(s.get("x"), Ok(None));
    s.set("z".into(), vec![0], Some(1)).unwrap();
    wait_ms(10);
    assert_eq!(s.sweep(), 1);
    assert!(s.key_exists("y"));
    assert_eq!(s.size(), 1);
    s.clear().unwrap();
    assert_eq!(s.size(), 0);
    assert!(s.keys().is_empty());
}

#[test]
fn list_fifo_and_lifo() {
    let mut s = Store::new();
    assert_eq!(s.push_back("q", b("a")).unwrap(), 1);
    assert_eq!(s.push_back("q", b("b")).unwrap(), 2);
    assert_eq!(s.pop_front("q").unwrap(), Some(b("a")));
    assert_eq!(s.pop_front("q").unwrap(), Some(b("b")));
    assert_eq!(s.pop_front("q").unwrap(), None);
    assert!(!s.key_exists("q"));

    s.push_front("s", b("1")).unwrap();
    s.push_front("s", b("2")).unwrap();
    assert_eq!(s.pop_back("s").unwrap(), Some(b("1")));
    assert_eq!(s.pop_back("s").unwrap(), Some(b("2")));
}

#[test]
fn llen_and_lrange() {
    let mut s = Store::new();
    for c in ["a", "b", "c", "d"] {
        s.push_back("l", b(c)).unwrap();
    }
    assert_eq!(s.llen("l"), Ok(4));
    assert_eq!(
        s.lrange("l", 0, -1),
        Ok(vec![b("a"), b("b"), b("c"), b("d")])
    );
    assert_eq!(s.lrange("l", 1, 2), Ok(vec![b("b"), b("c")]));
    assert_eq!(s.lrange("l", -2, -1), Ok(vec![b("c"), b("d")]));
    assert_eq!(s.lrange("l", 10, 20), Ok(Vec::new()));
    assert_eq!(s.lrange("missing", 0, -1), Ok(Vec::new()));
    assert_eq!(s.llen("missing"), Ok(0));
}

#[test]
fn wrong_type_errors() {
    let mut s = Store::new();
    s.set("a".into(), b("hola"), None).unwrap();
    assert!(matches!(
        s.push_back("a", b("x")),
        Err(ListError::WrongType)
    ));
    assert!(matches!(s.pop_front("a"), Err(ListError::WrongType)));
    assert_eq!(s.llen("a"), Err(WrongType));
    assert_eq!(s.lrange("a", 0, -1), Err(WrongType));

    s.push_back("l", b("x")).unwrap();
    assert_eq!(s.get("l"), Err(WrongType));
    s.set("l".into(), b("now bytes"), None).unwrap();
    assert_eq!(s.get("l"), Ok(Some(b("now bytes"))));
}

#[test]
fn snapshot_roundtrip_bytes_and_lists() {
    let mut s = Store::new();
    s.set("name".into(), b("strenor"), None).unwrap();
    s.set("ttl".into(), vec![1], Some(60_000)).unwrap();
    s.push_back("jobs", b("j1")).unwrap();
    s.push_back("jobs", b("j2")).unwrap();
    let bytes = s.dump_bytes();

    let mut fresh = Store::new();
    fresh.load_bytes(&bytes).unwrap();
    assert_eq!(fresh.get("name"), Ok(Some(b("strenor"))));
    assert!(fresh.ttl("ttl") > 0);
    assert_eq!(fresh.lrange("jobs", 0, -1), Ok(vec![b("j1"), b("j2")]));
}

#[test]
fn snapshot_rejects_garbage_and_corruption() {
    let mut s = Store::new();
    assert!(s.load_bytes(b"not a snapshot").is_err());
    assert!(s.load_bytes(b"STRN\x09\x00\x00\x00\x00\x00").is_err()); // bad version

    // Flip a byte in the middle: the trailing CRC must catch it.
    s.set("k".into(), b("value"), None).unwrap();
    let mut bytes = s.dump_bytes();
    let mid = bytes.len() / 2;
    bytes[mid] ^= 0xff;
    let mut fresh = Store::new();
    let err = fresh.load_bytes(&bytes).unwrap_err();
    assert!(err.0.contains("corrupted"), "got: {}", err.0);
}

#[test]
fn aof_persists_and_replays() {
    let mut log: Vec<u8> = Vec::new();
    {
        let (mut s, rec) = Store::with_aof(&log, false);
        assert_eq!(rec, Recovery::default()); // fresh file: nothing to apply
        s.set("user".into(), b("brashkie"), None).unwrap();
        s.set("gone".into(), b("x"), None).unwrap();
        s.del("gone").unwrap();
        s.push_back("jobs", b("j1")).unwrap();
        s.push_back("jobs", b("j2")).unwrap();
        s.pop_front("jobs").unwrap();
        s.expire("user", 60_000).unwrap();
        settle(&mut s, &mut log);
    } // dropped: simulates the process going away

    let (mut s2, rec) = Store::with_aof(&log, false);
    assert!(!rec.truncated);
    assert_eq!(rec.applied, 7);
    assert_eq!(s2.get("user"), Ok(Some(b("brashkie"))));
    assert_eq!(s2.get("gone"), Ok(None));
    assert_eq!(s2.lrange("jobs", 0, -1), Ok(vec![b("j2")]));
    assert!(s2.ttl("user") > 0);
}

#[test]
fn aof_recovers_from_a_torn_tail() {
    let mut log: Vec<u8> = Vec::new();
    {
        let (mut s, _) = Store::with_aof(&log, false);
        s.set("good".into(), b("1"), None).unwrap();
        s.set("also-good".into(), b("2"), None).unwrap();
        settle(&mut s, &mut log);
    }
    // Simulate a crash mid-append: garbage bytes at the end.
    log.extend_from_slice(&[0xff, 0x00, 0x00, 0x00, 0xde, 0xad]);

    let (mut s2, rec) = Store::with_aof(&log, false);
    assert!(rec.truncated, "a torn tail must be reported");
    assert_eq!(rec.applied, 2); // both intact records survived
    assert_eq!(s2.get("good"), Ok(Some(b("1"))));
    assert_eq!(s2.get("also-good"), Ok(Some(b("2"))));

    // The file was truncated, so reopening is now clean.
    settle(&mut s2, &mut log);
    drop(s2);
    let (_, rec2) = Store::with_aof(&log, false);
    assert!(!rec2.truncated);
    assert_eq!(rec2.applied, 2);
}

#[test]
fn aof_compaction_shrinks_and_preserves_state() {
    let mut log: Vec<u8> = Vec::new();
    let (mut s, _) = Store::with_aof(&log, false);
    // Churn: a queue that pushes and pops forever grows the log unboundedly.
    for i in 0..200 {
        s.push_back("q", b(&format!("job-{i}"))).unwrap();
        s.pop_front("q").unwrap();
    }
    s.set("keep".into(), b("value"), None).unwrap();
    s.push_back("q", b("last")).unwrap();
    s.push_back("ttl-list", b("e")).unwrap();
    s.expire("ttl-list", 60_000).unwrap();

    let before = s.aof_size();
    let after = s.compact().unwrap();
    assert!(
        after < before,
        "compaction must shrink: {after} !< {before}"
    );

    // State survives a reopen from the compacted log.
    settle(&mut s, &mut log);
    drop(s);
    let (mut s2, rec) = Store::with_aof(&log, false);
    assert!(!rec.truncated);
    assert_eq!(s2.get("keep"), Ok(Some(b("value"))));
    assert_eq!(s2.lrange("q", 0, -1), Ok(vec![b("last")]));
    assert!(s2.ttl("ttl-list") > 0); // list TTL restored
}

#[test]
fn aof_skips_expired_entries_on_compaction() {
    let mut log: Vec<u8> = Vec::new();
    let (mut s, _) = Store::with_aof(&log, false);
    s.set("dead".into(), b("x"), Some(1)).unwrap();
    s.set("alive".into(), b("y"), None).unwrap();
    wait_ms(10);
    s.compact().unwrap();
    settle(&mut s, &mut log);
    drop(s);

    let (mut s2, _) = Store::with_aof(&log, false);
    assert_eq!(s2.get("alive"), Ok(Some(b("y"))));
    assert_eq!(s2.get("dead"), Ok(None));
    assert_eq!(s2.size(), 1); // the dead key was never journalled
}

#[test]
fn store_without_aof_reports_no_log() {
    let mut s = Store::new();
    assert!(!s.has_aof());
    assert_eq!(s.aof_size(), 0);
    assert_eq!(s.compact().unwrap(), 0); // no-op, not an error
}

#[test]
fn close_releases_the_log_and_is_idempotent() {
    let mut log: Vec<u8> = Vec::new();
    let (mut s, _) = Store::with_aof(&log, false);
    s.set("k".into(), b("v"), None).unwrap();
    assert!(s.has_aof());

    s.close();
    settle(&mut s, &mut log);
    assert!(s.is_closed());
    assert!(!s.has_aof()); // handle released
    s.close(); // idempotent
    settle(&mut s, &mut log);

    // Reads still work from memory...
    assert_eq!(s.get("k"), Ok(Some(b("v"))));
    // ...but writes must fail loudly instead of skipping the journal.
    assert!(s.set("k2".into(), b("v"), None).is_err());
    assert!(s.del("k").is_err());
    assert!(s.clear().is_err());
    assert!(s.expire("k", 100).is_err());
    assert!(s.persist("k").is_err());
    assert!(matches!(s.push_back("l", b("x")), Err(ListError::Io(_))));
    assert!(matches!(s.pop_front("l"), Err(ListError::Io(_))));
    assert!(s.compact().is_err());
}

#[test]
fn closed_log_can_be_deleted_and_reopened() {
    let mut log: Vec<u8> = Vec::new();
    {
        let (mut s, _) = Store::with_aof(&log, false);
        s.set("a".into(), b("1"), None).unwrap();
        s.close();
        settle(&mut s, &mut log);
    }
    log.clear(); // the file is deleted: nothing of it is owed any more

    let (mut fresh, rec) = Store::with_aof(&log, false);
    assert_eq!(rec.applied, 0); // brand-new log
    fresh.set("b".into(), b("2"), None).unwrap();
    assert_eq!(fresh.get("b"), Ok(Some(b("2"))));
    fresh.close();
    settle(&mut fresh, &mut log);
}

#[test]
fn memory_only_store_closes_cleanly() {
    let mut s = Store::new();
    s.set("k".into(), b("v"), None).unwrap();
    s.close();
    assert!(s.is_closed());
    assert_eq!(s.get("k"), Ok(Some(b("v"))));
    assert!(s.set("x".into(), b("y"), None).is_err());
}

#[test]
fn hash_basic_ops() {
    let mut s = Store::new();
    assert!(s.hset("u:1", "name".into(), b("alice")).unwrap()); // new field
    assert!(!s.hset("u:1", "name".into(), b("bob")).unwrap()); // overwrite
    assert_eq!(s.hget("u:1", "name").unwrap(), Some(b("bob")));
    assert_eq!(s.hget("u:1", "missing").unwrap(), None);
    assert_eq!(s.hget("missing", "x").unwrap(), None);

    s.hset("u:1", "age".into(), b("20")).unwrap();
    assert_eq!(s.hlen("u:1"), Ok(2));
    assert!(s.hexists("u:1", "age").unwrap());
    assert!(!s.hexists("u:1", "nope").unwrap());
    let mut ks = s.hkeys("u:1").unwrap();
    ks.sort();
    assert_eq!(ks, vec!["age".to_string(), "name".to_string()]);

    assert!(s.hdel("u:1", "age").unwrap());
    assert!(!s.hdel("u:1", "age").unwrap());
    assert_eq!(s.hlen("u:1"), Ok(1));
}

#[test]
fn hash_empty_key_is_removed() {
    let mut s = Store::new();
    s.hset("h", "only".into(), b("v")).unwrap();
    assert!(s.key_exists("h"));
    s.hdel("h", "only").unwrap();
    assert!(!s.key_exists("h")); // last field gone -> key deleted
    assert_eq!(s.hlen("h"), Ok(0));
    assert_eq!(s.hgetall("h").unwrap(), Vec::new());
    assert!(s.hkeys("h").unwrap().is_empty());
}

#[test]
fn hash_hgetall() {
    let mut s = Store::new();
    s.hset("cfg", "a".into(), b("1")).unwrap();
    s.hset("cfg", "b".into(), b("2")).unwrap();
    let mut all = s.hgetall("cfg").unwrap();
    all.sort();
    assert_eq!(all, vec![("a".into(), b("1")), ("b".into(), b("2"))]);
}

#[test]
fn hash_wrong_type() {
    let mut s = Store::new();
    s.set("str".into(), b("hola"), None).unwrap();
    assert!(matches!(
        s.hset("str", "f".into(), b("x")),
        Err(ListError::WrongType)
    ));
    assert!(matches!(s.hdel("str", "f"), Err(ListError::WrongType)));
    assert_eq!(s.hget("str", "f"), Err(WrongType));
    assert_eq!(s.hexists("str", "f"), Err(WrongType));
    assert_eq!(s.hkeys("str"), Err(WrongType));
    assert_eq!(s.hlen("str"), Err(WrongType));
    assert_eq!(s.hgetall("str"), Err(WrongType));

    // And a hash is not a string/list.
    s.hset("h", "f".into(), b("v")).unwrap();
    assert_eq!(s.get("h"), Err(WrongType));
    assert!(matches!(
        s.push_back("h", b("x")),
        Err(ListError::WrongType)
    ));
}

#[test]
fn hash_honors_ttl() {
    let mut s = Store::new();
    s.hset("sess", "step".into(), b("menu")).unwrap();
    assert!(s.expire("sess", 60_000).unwrap());
    assert!(s.ttl("sess") > 0);
    s.set("k".into(), b("v"), Some(1)).unwrap();

    s.hset("dead", "f".into(), b("v")).unwrap();
    s.expire("dead", 1).unwrap();
    wait_ms(10);
    assert_eq!(s.hget("dead", "f").unwrap(), None); // lazily expired
    assert_eq!(s.hlen("dead"), Ok(0));
}

#[test]
fn hash_snapshot_roundtrip() {
    let mut s = Store::new();
    s.hset("u:1", "name".into(), b("alice")).unwrap();
    s.hset("u:1", "age".into(), b("20")).unwrap();
    s.set("plain".into(), b("x"), None).unwrap();
    let bytes = s.dump_bytes();

    let mut fresh = Store::new();
    fresh.load_bytes(&bytes).unwrap();
    assert_eq!(fresh.hget("u:1", "name").unwrap(), Some(b("alice")));
    assert_eq!(fresh.hget("u:1", "age").unwrap(), Some(b("20")));
    assert_eq!(fresh.hlen("u:1"), Ok(2));
    assert_eq!(fresh.get("plain"), Ok(Some(b("x"))));
}

#[test]
fn hash_aof_replay_and_compaction() {
    let mut log: Vec<u8> = Vec::new();
    {
        let (mut s, _) = Store::with_aof(&log, false);
        s.hset("u:1", "name".into(), b("alice")).unwrap();
        s.hset("u:1", "tmp".into(), b("x")).unwrap();
        s.hdel("u:1", "tmp").unwrap();
        // Churn to grow the log.
        for i in 0..100 {
            s.hset("u:1", "counter".into(), b(&i.to_string())).unwrap();
        }
        s.expire("u:1", 60_000).unwrap();
        s.close();
        settle(&mut s, &mut log);
    }

    let (mut s2, rec) = Store::with_aof(&log, false);
    assert!(!rec.truncated);
    assert_eq!(s2.hget("u:1", "name").unwrap(), Some(b("alice")));
    assert_eq!(s2.hget("u:1", "tmp").unwrap(), None); // deleted field stays deleted
    assert_eq!(s2.hget("u:1", "counter").unwrap(), Some(b("99")));
    assert!(s2.ttl("u:1") > 0);

    let before = s2.aof_size();
    s2.compact().unwrap();
    let after = s2.aof_size();
    assert!(after < before);
    s2.close();
    settle(&mut s2, &mut log);

    // State (and TTL) survive reopening from the compacted log.
    let (mut s3, _) = Store::with_aof(&log, false);
    assert_eq!(s3.hget("u:1", "counter").unwrap(), Some(b("99")));
    assert_eq!(s3.hlen("u:1"), Ok(2)); // name + counter
    assert!(s3.ttl("u:1") > 0);
    s3.close();
    settle(&mut s3, &mut log);
}

#[test]
fn set_basic_and_uniqueness() {
    let mut s = Store::new();
    assert!(s.sadd("tags", b("rust")).unwrap()); // new
    assert!(!s.sadd("tags", b("rust")).unwrap()); // duplicate: no-op
    assert!(s.sadd("tags", b("napi")).unwrap());
    assert_eq!(s.scard("tags"), Ok(2));
    assert!(s.sismember("tags", &b("rust")).unwrap());
    assert!(!s.sismember("tags", &b("ghost")).unwrap());
    assert!(!s.sismember("missing", &b("x")).unwrap());

    let mut ms = s.smembers("tags").unwrap();
    ms.sort();
    assert_eq!(ms, vec![b("napi"), b("rust")]);
}

#[test]
fn set_srem_and_empty_key_removed() {
    let mut s = Store::new();
    s.sadd("s", b("a")).unwrap();
    s.sadd("s", b("b")).unwrap();
    assert!(s.srem("s", &b("a")).unwrap());
    assert!(!s.srem("s", &b("a")).unwrap()); // already gone
    assert_eq!(s.scard("s"), Ok(1));
    assert!(s.srem("s", &b("b")).unwrap());
    assert!(!s.key_exists("s")); // last member gone -> key deleted
    assert_eq!(s.scard("s"), Ok(0));
    assert!(s.smembers("s").unwrap().is_empty());
    assert!(!s.srem("missing", &b("x")).unwrap());
}

#[test]
fn set_wrong_type() {
    let mut s = Store::new();
    s.set("str".into(), b("hola"), None).unwrap();
    assert!(matches!(s.sadd("str", b("x")), Err(ListError::WrongType)));
    assert!(matches!(s.srem("str", &b("x")), Err(ListError::WrongType)));
    assert_eq!(s.sismember("str", &b("x")), Err(WrongType));
    assert_eq!(s.smembers("str"), Err(WrongType));
    assert_eq!(s.scard("str"), Err(WrongType));

    // a set is not bytes/list/hash
    s.sadd("st", b("m")).unwrap();
    assert_eq!(s.get("st"), Err(WrongType));
    assert!(matches!(
        s.push_back("st", b("x")),
        Err(ListError::WrongType)
    ));
    assert!(matches!(
        s.hset("st", "f".into(), b("v")),
        Err(ListError::WrongType)
    ));
}

#[test]
fn set_honors_ttl_and_snapshot() {
    let mut s = Store::new();
    s.sadd("online", b("u1")).unwrap();
    s.sadd("online", b("u2")).unwrap();
    assert!(s.expire("online", 60_000).unwrap());
    let bytes = s.dump_bytes();

    let mut fresh = Store::new();
    fresh.load_bytes(&bytes).unwrap();
    assert_eq!(fresh.scard("online"), Ok(2));
    assert!(fresh.sismember("online", &b("u1")).unwrap());
    assert!(fresh.ttl("online") > 0);
}

#[test]
fn set_aof_replay_and_compaction() {
    let mut log: Vec<u8> = Vec::new();
    {
        let (mut s, _) = Store::with_aof(&log, false);
        s.sadd("seen", b("a")).unwrap();
        s.sadd("seen", b("b")).unwrap();
        s.srem("seen", &b("a")).unwrap();
        // churn: re-adding the same member grows the log without growing the set
        for _ in 0..100 {
            s.sadd("seen", b("b")).unwrap();
        }
        s.sadd("seen", b("c")).unwrap();
        s.close();
        settle(&mut s, &mut log);
    }

    let (mut s2, rec) = Store::with_aof(&log, false);
    assert!(!rec.truncated);
    assert!(!s2.sismember("seen", &b("a")).unwrap()); // removed stays removed
    assert!(s2.sismember("seen", &b("b")).unwrap());
    assert_eq!(s2.scard("seen"), Ok(2)); // {b, c}

    let before = s2.aof_size();
    s2.compact().unwrap();
    assert!(s2.aof_size() < before);
    s2.close();
    settle(&mut s2, &mut log);

    let (mut s3, _) = Store::with_aof(&log, false);
    assert_eq!(s3.scard("seen"), Ok(2));
    assert!(s3.sismember("seen", &b("c")).unwrap());
    s3.close();
    settle(&mut s3, &mut log);
}

#[test]
fn zset_ordering_and_queries() {
    let mut s = Store::new();
    assert!(matches!(s.zadd("lb", f(50.0), b("bob")), Ok(true)));
    assert!(matches!(s.zadd("lb", f(100.0), b("alice")), Ok(true)));
    assert!(matches!(s.zadd("lb", f(10.0), b("carol")), Ok(true)));
    assert!(matches!(s.zadd("lb", f(75.0), b("bob")), Ok(false))); // update

    assert_eq!(s.zcard("lb"), Ok(3));
    assert_eq!(s.zscore("lb", &b("bob")).unwrap(), Some(f(75.0)));
    assert_eq!(s.zscore("lb", &b("ghost")).unwrap(), None);
    assert_eq!(
        s.zrange("lb", 0, -1),
        Ok(vec![b("carol"), b("bob"), b("alice")])
    );
    assert_eq!(s.zrank("lb", &b("carol")).unwrap(), Some(0));
    assert_eq!(s.zrank("lb", &b("alice")).unwrap(), Some(2));

    let top = s.zrange_scored("lb", -1, -1).unwrap();
    assert_eq!(top[0].member, b("alice"));
    assert_eq!(top[0].score, f(100.0));
}

#[test]
fn zset_incrby_and_rem() {
    let mut s = Store::new();
    assert_eq!(incr(&mut s, "lb", 5.0, b("p")).unwrap(), 5.0); // created at delta
    assert_eq!(incr(&mut s, "lb", 3.0, b("p")).unwrap(), 8.0);
    assert!(s.zrem("lb", &b("p")).unwrap());
    assert!(!s.zrem("lb", &b("p")).unwrap());
    assert!(!s.key_exists("lb")); // emptied -> removed
    assert_eq!(s.zcard("lb"), Ok(0));
    assert_eq!(s.zrange("lb", 0, -1), Ok(Vec::new()));
}

#[test]
fn zset_rejects_nan() {
    let mut s = Store::new();
    assert!(matches!(
        s.zadd("z", f(f64::NAN), b("x")),
        Err(ZAddError::BadScore)
    ));
}

#[test]
fn zset_wrong_type() {
    let mut s = Store::new();
    s.set("str".into(), b("hola"), None).unwrap();
    assert!(matches!(
        s.zadd("str", f(1.0), b("x")),
        Err(ZAddError::WrongType)
    ));
    assert!(matches!(
        incr(&mut s, "str", 1.0, b("x")),
        Err(ZAddError::WrongType)
    ));
    assert!(matches!(s.zrem("str", &b("x")), Err(ListError::WrongType)));
    assert_eq!(s.zscore("str", &b("x")), Err(WrongType));
    assert_eq!(s.zrank("str", &b("x")), Err(WrongType));
    assert_eq!(s.zcard("str"), Err(WrongType));
    assert_eq!(s.zrange("str", 0, -1), Err(WrongType));
    assert_eq!(s.zrange_scored("str", 0, -1), Err(WrongType));

    s.zadd("z", f(1.0), b("m")).unwrap();
    assert_eq!(s.get("z"), Err(WrongType));
}

#[test]
fn zset_snapshot_and_aof() {
    let mut log: Vec<u8> = Vec::new();
    {
        let (mut s, _) = Store::with_aof(&log, false);
        s.zadd("lb", f(100.0), b("alice")).unwrap();
        s.zadd("lb", f(50.0), b("bob")).unwrap();
        for _ in 0..100 {
            incr(&mut s, "lb", 1.0, b("bob")).unwrap(); // churn: 50 -> 150
        }
        s.expire("lb", 60_000).unwrap();
        s.close();
        settle(&mut s, &mut log);
    }

    let (mut s2, rec) = Store::with_aof(&log, false);
    assert!(!rec.truncated);
    assert_eq!(s2.zscore("lb", &b("bob")).unwrap(), Some(f(150.0)));
    assert_eq!(s2.zrange("lb", 0, -1), Ok(vec![b("alice"), b("bob")])); // bob now leads
    assert!(s2.ttl("lb") > 0);

    // snapshot roundtrip preserves scores + order
    let bytes = s2.dump_bytes();
    let mut fresh = Store::new();
    fresh.load_bytes(&bytes).unwrap();
    assert_eq!(fresh.zscore("lb", &b("bob")).unwrap(), Some(f(150.0)));
    assert_eq!(fresh.zrank("lb", &b("bob")).unwrap(), Some(1));

    let before = s2.aof_size();
    s2.compact().unwrap();
    assert!(s2.aof_size() < before);
    s2.close();
    settle(&mut s2, &mut log);
}

#[test]
fn tx_commit_applies_all() {
    let mut s = Store::new();
    s.set("balance".into(), b("100"), None).unwrap();
    s.tx_begin().unwrap();
    assert!(s.in_transaction());
    s.set("balance".into(), b("90"), None).unwrap();
    s.hset("orders", "o1".into(), b("book")).unwrap();
    s.tx_commit().unwrap();
    assert!(!s.in_transaction());
    assert_eq!(s.get("balance"), Ok(Some(b("90"))));
    assert_eq!(s.hget("orders", "o1").unwrap(), Some(b("book")));
}

#[test]
fn tx_rollback_restores_state() {
    let mut s = Store::new();
    s.set("balance".into(), b("100"), None).unwrap();
    s.hset("h", "keep".into(), b("v")).unwrap();

    s.tx_begin().unwrap();
    s.set("balance".into(), b("0"), None).unwrap(); // change existing
    s.set("new".into(), b("x"), None).unwrap(); // add new
    s.hdel("h", "keep").unwrap(); // remove field
    s.zadd("lb", f(5.0), b("p")).unwrap(); // new structure
    s.tx_rollback().unwrap();

    // everything reverts to the pre-transaction state
    assert_eq!(s.get("balance"), Ok(Some(b("100"))));
    assert_eq!(s.get("new"), Ok(None));
    assert_eq!(s.hget("h", "keep").unwrap(), Some(b("v")));
    assert_eq!(s.zcard("lb"), Ok(0));
    assert!(!s.in_transaction());
}

#[test]
fn tx_no_nesting_and_no_stray_commit() {
    let mut s = Store::new();
    s.tx_begin().unwrap();
    assert!(s.tx_begin().is_err()); // already open
    s.tx_commit().unwrap();
    assert!(s.tx_commit().is_err()); // none open
    assert!(s.tx_rollback().is_err()); // none open
}

#[test]
fn tx_transact_helper_commits_and_rolls_back() {
    let mut s = Store::new();
    s.set("k".into(), b("1"), None).unwrap();

    // Ok closure commits.
    let out: Result<i32, TxError<()>> = s.transact(|st| {
        st.set("k".into(), b("2"), None).unwrap();
        Ok(42)
    });
    assert_eq!(out.map_err(|_| ()), Ok(42));
    assert_eq!(s.get("k"), Ok(Some(b("2"))));

    // Err closure rolls back.
    let out: Result<(), &str> = match s.transact(|st| {
        st.set("k".into(), b("3"), None).unwrap();
        Err("boom")
    }) {
        Ok(v) => Ok(v),
        Err(TxError::User(e)) => Err(e),
        Err(TxError::Io(_)) => Err("io"),
    };
    assert_eq!(out, Err("boom"));
    assert_eq!(s.get("k"), Ok(Some(b("2")))); // unchanged by the failed tx
}

#[test]
fn tx_persists_atomically_to_aof() {
    let mut log: Vec<u8> = Vec::new();
    {
        let (mut s, _) = Store::with_aof(&log, false);
        s.set("a".into(), b("1"), None).unwrap();
        s.tx_begin().unwrap();
        s.set("a".into(), b("2"), None).unwrap();
        s.set("b".into(), b("3"), None).unwrap();
        s.tx_commit().unwrap();
        // a rolled-back tx writes nothing
        s.tx_begin().unwrap();
        s.set("c".into(), b("never"), None).unwrap();
        s.tx_rollback().unwrap();
        s.close();
        settle(&mut s, &mut log);
    }
    let (mut s2, rec) = Store::with_aof(&log, false);
    assert!(!rec.truncated);
    assert_eq!(s2.get("a"), Ok(Some(b("2"))));
    assert_eq!(s2.get("b"), Ok(Some(b("3"))));
    assert_eq!(s2.get("c"), Ok(None)); // rolled back, never journalled
    s2.close();
    settle(&mut s2, &mut log);
}

// ── Hardening: adversarial and edge-case inputs ───────────────────────

#[test]
fn snapshot_with_huge_count_does_not_oom() {
    // A corrupt count field must not trigger a giant allocation. Build a
    // minimal v2 header claiming 4 billion entries with no body to back it.
    let mut data = Vec::new();
    data.extend_from_slice(&MAGIC);
    data.push(2); // version 2 (no trailing CRC to worry about)
    data.push(0); // flags
    data.extend_from_slice(&u32::MAX.to_le_bytes()); // count = 4 billion
                                                     // no entries follow
    let mut s = Store::new();
    // Must return an error (truncated), not abort the process on allocation.
    assert!(s.load_bytes(&data).is_err());
}

#[test]
fn snapshot_with_huge_value_len_is_rejected() {
    // v2 entry whose value-length claims to be enormous but has no bytes.
    let mut data = Vec::new();
    data.extend_from_slice(&MAGIC);
    data.push(2);
    data.push(0);
    data.extend_from_slice(&1u32.to_le_bytes()); // count = 1
    data.extend_from_slice(&1u32.to_le_bytes()); // key len = 1
    data.push(b'k'); // key
    data.extend_from_slice(&0u64.to_le_bytes()); // no expiry
    data.push(TYPE_BYTES);
    data.extend_from_slice(&u32::MAX.to_le_bytes()); // value len = 4GB
                                                     // no value bytes
    let mut s = Store::new();
    assert!(s.load_bytes(&data).is_err()); // truncated, not OOM
}

#[test]
fn snapshot_with_huge_list_count_is_rejected() {
    let mut data = Vec::new();
    data.extend_from_slice(&MAGIC);
    data.push(2);
    data.push(0);
    data.extend_from_slice(&1u32.to_le_bytes()); // count = 1
    data.extend_from_slice(&1u32.to_le_bytes()); // key len
    data.push(b'q');
    data.extend_from_slice(&0u64.to_le_bytes());
    data.push(TYPE_LIST);
    data.extend_from_slice(&u32::MAX.to_le_bytes()); // element count = 4B
    let mut s = Store::new();
    assert!(s.load_bytes(&data).is_err());
}

#[test]
fn keys_and_values_with_arbitrary_bytes() {
    let mut s = Store::new();
    // NUL bytes, high bytes, and an empty value are all valid.
    let weird_key = "clé\0\u{1F600}".to_string();
    let weird_val = vec![0u8, 255, 0, 128, 42];
    s.set(weird_key.clone(), weird_val.clone(), None).unwrap();
    assert_eq!(s.get(&weird_key), Ok(Some(weird_val)));

    s.set("empty".into(), Vec::new(), None).unwrap();
    assert_eq!(s.get("empty"), Ok(Some(Vec::new()))); // empty value != missing
    assert!(s.key_exists("empty"));

    // Empty key is a valid key.
    s.set(String::new(), vec![1], None).unwrap();
    assert_eq!(s.get(""), Ok(Some(vec![1])));
}

#[test]
fn arbitrary_bytes_survive_snapshot_roundtrip() {
    let mut s = Store::new();
    let val: Vec<u8> = (0..=255u8).collect(); // every byte value
    s.set("all-bytes".into(), val.clone(), None).unwrap();
    s.push_back("list", vec![0, 255, 0]).unwrap();
    s.hset("h", "\0field".into(), vec![255, 254]).unwrap();
    s.sadd("set", vec![0, 0, 0]).unwrap();

    let bytes = s.dump_bytes();
    let mut fresh = Store::new();
    fresh.load_bytes(&bytes).unwrap();
    assert_eq!(fresh.get("all-bytes"), Ok(Some(val)));
    assert_eq!(fresh.lrange("list", 0, -1), Ok(vec![vec![0, 255, 0]]));
    assert_eq!(fresh.hget("h", "\0field").unwrap(), Some(vec![255, 254]));
    assert!(fresh.sismember("set", &[0, 0, 0]).unwrap());
}

#[test]
fn large_value_roundtrips() {
    // A megabyte value should store, fetch, and snapshot without issue.
    let mut s = Store::new();
    let big = vec![7u8; 1024 * 1024];
    s.set("big".into(), big.clone(), None).unwrap();
    assert_eq!(s.get("big"), Ok(Some(big.clone())));
    let snap = s.dump_bytes();
    let mut fresh = Store::new();
    fresh.load_bytes(&snap).unwrap();
    assert_eq!(fresh.get("big"), Ok(Some(big)));
}

#[test]
fn truncated_snapshot_headers_are_rejected_cleanly() {
    let mut s = Store::new();
    // Every prefix of a valid snapshot must error, never panic.
    s.set("k".into(), b("value"), None).unwrap();
    let full = s.dump_bytes();
    for cut in 0..full.len() {
        let mut fresh = Store::new();
        // Must not panic on any truncation point.
        let _ = fresh.load_bytes(&full[..cut]);
    }
    // And the full thing still loads.
    let mut fresh = Store::new();
    assert!(fresh.load_bytes(&full).is_ok());
}

#[test]
fn lrange_extreme_indices_never_panic() {
    let mut s = Store::new();
    for c in ["a", "b", "c"] {
        s.push_back("l", b(c)).unwrap();
    }
    // i64 extremes must not overflow the index math.
    assert_eq!(
        s.lrange("l", i64::MIN, i64::MAX),
        Ok(vec![b("a"), b("b"), b("c")])
    );
    assert_eq!(s.lrange("l", i64::MAX, i64::MIN), Ok(Vec::new()));
    assert_eq!(s.lrange("l", -1000, 1000), Ok(vec![b("a"), b("b"), b("c")]));
}

#[test]
fn zrange_extreme_indices_never_panic() {
    let mut s = Store::new();
    s.zadd("z", f(1.0), b("a")).unwrap();
    s.zadd("z", f(2.0), b("b")).unwrap();
    assert_eq!(s.zrange("z", i64::MIN, i64::MAX), Ok(vec![b("a"), b("b")]));
    assert_eq!(s.zrange("z", i64::MAX, i64::MIN), Ok(Vec::new()));
}

#[test]
fn tx_undo_same_key_touched_many_times() {
    // The undo-log must record only the ORIGINAL value, no matter how many
    // times a key changes within the transaction.
    let mut s = Store::new();
    s.set("k".into(), b("original"), None).unwrap();
    s.tx_begin().unwrap();
    s.set("k".into(), b("v1"), None).unwrap();
    s.set("k".into(), b("v2"), None).unwrap();
    s.set("k".into(), b("v3"), None).unwrap();
    s.tx_rollback().unwrap();
    assert_eq!(s.get("k"), Ok(Some(b("original")))); // back to original, not v2
}

#[test]
fn tx_rollback_of_clear_restores_everything() {
    let mut s = Store::new();
    s.set("a".into(), b("1"), None).unwrap();
    s.set("b".into(), b("2"), None).unwrap();
    s.hset("h", "f".into(), b("v")).unwrap();
    s.tx_begin().unwrap();
    s.clear().unwrap();
    assert_eq!(s.size(), 0); // cleared inside the tx
    s.tx_rollback().unwrap();
    // everything comes back
    assert_eq!(s.get("a"), Ok(Some(b("1"))));
    assert_eq!(s.get("b"), Ok(Some(b("2"))));
    assert_eq!(s.hget("h", "f").unwrap(), Some(b("v")));
}

#[test]
fn tx_rollback_across_all_structures() {
    let mut s = Store::new();
    s.set("kv".into(), b("keep"), None).unwrap();
    s.push_back("list", b("keep")).unwrap();
    s.hset("hash", "keep".into(), b("v")).unwrap();
    s.sadd("set", b("keep")).unwrap();
    s.zadd("zset", f(1.0), b("keep")).unwrap();

    s.tx_begin().unwrap();
    s.set("kv".into(), b("changed"), None).unwrap();
    s.push_back("list", b("added")).unwrap();
    s.hset("hash", "new".into(), b("x")).unwrap();
    s.sadd("set", b("added")).unwrap();
    s.zadd("zset", f(2.0), b("added")).unwrap();
    s.set("brand-new".into(), b("x"), None).unwrap();
    s.tx_rollback().unwrap();

    // every structure is back exactly as before the transaction
    assert_eq!(s.get("kv"), Ok(Some(b("keep"))));
    assert_eq!(s.lrange("list", 0, -1), Ok(vec![b("keep")]));
    assert_eq!(s.hlen("hash"), Ok(1));
    assert_eq!(s.hget("hash", "keep").unwrap(), Some(b("v")));
    assert_eq!(s.scard("set"), Ok(1));
    assert_eq!(s.zcard("zset"), Ok(1));
    assert_eq!(s.get("brand-new"), Ok(None)); // never existed before
}

#[test]
fn tx_commit_then_rollback_noop_is_safe() {
    // A key created and committed, then a later tx that rolls back, must keep
    // the committed value.
    let mut s = Store::new();
    s.tx_begin().unwrap();
    s.set("k".into(), b("committed"), None).unwrap();
    s.tx_commit().unwrap();

    s.tx_begin().unwrap();
    s.set("k".into(), b("temp"), None).unwrap();
    s.tx_rollback().unwrap();
    assert_eq!(s.get("k"), Ok(Some(b("committed"))));
}
