use strenor::classic::Strenor;
use std::time::{Duration, Instant};

fn b(s: &str) -> Vec<u8> {
    s.as_bytes().to_vec()
}

fn wait_ms(ms: u64) {
    let start = Instant::now();
    while start.elapsed() < Duration::from_millis(ms) {}
}

#[test]
fn plain_engine_stores_bytes() {
    let mut s = Strenor::default();
    s.set("a".into(), b("1"), None);
    assert_eq!(s.get("a"), Some(b("1")));
    assert_eq!(s.get("ghost"), None);
    assert!(s.key_exists("a"));
    assert_eq!(s.size(), 1);
    assert!(s.del("a"));
    assert!(!s.del("a"));
    assert!(!s.key_exists("a"));
}

#[test]
fn plain_engine_expires() {
    let mut s = Strenor::new();
    s.set("x".into(), b("1"), Some(1));
    s.set("y".into(), b("2"), Some(60_000));
    s.set("z".into(), b("3"), None);
    let left = s.ttl("y");
    assert!(left > 0 && left <= 60_000);
    assert_eq!(s.ttl("z"), -1);
    wait_ms(5);
    assert_eq!(s.keys(), vec!["y", "z"]);
    assert_eq!(s.size(), 3);
    assert_eq!(s.sweep(), 1);
    assert_eq!(s.ttl("x"), -2);
    assert!(s.expire("z", 0));
    assert!(!s.expire("ghost", 5));
    assert_eq!(s.get("z"), None);
    assert!(s.persist("y"));
    assert!(!s.persist("z"));
    assert_eq!(s.ttl("y"), -1);
    s.clear();
    assert_eq!(s.size(), 0);
}

#[test]
fn plain_snapshot_bytes_are_as_documented() {
    let mut s = Strenor::new();
    s.set_at("k".into(), b("vv"), Some(7), 3);
    let mut want = b("STRN");
    want.extend_from_slice(&[1, 0]);
    want.extend_from_slice(&1u32.to_le_bytes());
    want.extend_from_slice(&1u32.to_le_bytes());
    want.extend_from_slice(b"k");
    want.extend_from_slice(&10u64.to_le_bytes());
    want.extend_from_slice(&2u32.to_le_bytes());
    want.extend_from_slice(b"vv");
    assert_eq!(s.dump(), want);
}

#[test]
fn plain_engine_refuses_bad_snapshots() {
    let mut s = Strenor::new();
    s.set_at("kept".into(), b("v"), None, 1);
    let mut faults = Vec::new();
    let bad: [&[u8]; 6] = [
        b"STRN",
        b"NOPE\x01\0\0\0\0\0",
        b"STRN\x02\0\0\0\0\0",
        b"STRN\x01\0\x01\0\0\0",
        b"STRN\x01\0\x01\0\0\0\x01\0\0\0\xff\0\0\0\0",
        b"STRN\x01\0\x01\0\0\0\xff\xff\xff\xff",
    ];
    for data in bad {
        faults.push(s.load(data).unwrap_err().message());
    }
    assert_eq!(
        faults,
        vec![
            "snapshot too small",
            "bad magic: not a Strenor snapshot",
            "unsupported snapshot version",
            "snapshot truncated",
            "invalid utf8 key",
            "snapshot truncated",
        ]
    );
    assert_eq!(s.get_at("kept", 1), Some(b("v")));
}
