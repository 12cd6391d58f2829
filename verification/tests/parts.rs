use strenor::bytes::{copy_range, put_bytes, put_u32, put_u64, u32_at, u64_at};
use strenor::clock::time_of_reading;
use strenor::errors::{Recovery, RecoveryInfo};
use strenor::order::{compare_bytes, Place};
use strenor::ranges::range_bounds;
use strenor::record::{
    rec_clear, rec_expire, rec_hdel, rec_hset, rec_key_only, rec_push, rec_smember, rec_zadd,
    rec_zrem, Cursor, OP_CLEAR, OP_DEL, OP_EXPIRE, OP_HDEL, OP_HSET, OP_PUSH_BACK, OP_SADD, OP_ZADD,
    OP_ZREM,
};
use strenor::score::OrderedF64;
use strenor::sorted_map::SortedMap;
use strenor::store::Store;
use strenor::text::decode_text;

fn b(s: &str) -> Vec<u8> {
    s.as_bytes().to_vec()
}

fn f(x: f64) -> OrderedF64 {
    OrderedF64(x.to_bits())
}

#[test]
fn scores_compare_as_total_order() {
    let xs = [
        f64::NEG_INFINITY,
        f64::MIN,
        -1.5,
        -f64::MIN_POSITIVE,
        -0.0,
        0.0,
        5e-324,
        1.0,
        1.0000000000000002,
        f64::MAX,
        f64::INFINITY,
        f64::NAN,
        -f64::NAN,
    ];
    for x in xs {
        for y in xs {
            let want = if x.total_cmp(&y).is_lt() {
                Place::Before
            } else if x.total_cmp(&y).is_gt() {
                Place::After
            } else {
                Place::Same
            };
            assert_eq!(f(x).compare(&f(y)), want);
        }
        assert_eq!(f(x).is_nan(), x.is_nan());
        assert_eq!(f(x).is_finite(), x.is_finite());
    }
}

#[test]
fn bytes_compare_as_slices() {
    let xs: [&[u8]; 6] = [b"", b"a", b"ab", b"b", b"\x00", b"\xff\x00"];
    for x in xs {
        for y in xs {
            let want = if x < y {
                Place::Before
            } else if x > y {
                Place::After
            } else {
                Place::Same
            };
            assert_eq!(compare_bytes(x, y), want);
        }
    }
}

#[test]
fn numbers_are_little_endian() {
    let mut buf: Vec<u8> = Vec::new();
    put_u32(&mut buf, 0x0403_0201);
    put_u64(&mut buf, 0x0c0b_0a09_0807_0605);
    put_bytes(&mut buf, b"xy");
    assert_eq!(
        buf,
        vec![1, 2, 3, 4, 5, 6, 7, 8, 9, 10, 11, 12, 2, 0, 0, 0, b'x', b'y']
    );
    assert_eq!(u32_at(&buf, 0), 0x0403_0201);
    assert_eq!(u64_at(&buf, 4), 0x0c0b_0a09_0807_0605);
    assert_eq!(copy_range(&buf, 16, 18), b("xy"));
}

#[test]
fn text_is_utf8_or_nothing() {
    assert_eq!(decode_text(b("clé\u{1F600}")), Some("clé\u{1F600}".to_string()));
    assert_eq!(decode_text(Vec::new()), Some(String::new()));
    assert_eq!(decode_text(vec![0xc3]), None);
    assert_eq!(decode_text(vec![0xed, 0xa0, 0x80]), None);
}

#[test]
fn records_hold_their_arguments() {
    assert_eq!(rec_clear(), vec![OP_CLEAR]);
    assert_eq!(rec_key_only(OP_DEL, "k"), vec![OP_DEL, 1, 0, 0, 0, b'k']);
    let r = rec_expire("k", 9);
    let mut c = Cursor::new(&r);
    assert_eq!((r[0], c.string(), c.u64(), c.u32()), (OP_EXPIRE, Some("k".into()), Some(9), None));
    let r = rec_push(OP_PUSH_BACK, "k", b"v");
    let mut c = Cursor::new(&r);
    assert_eq!((r[0], c.string(), c.bytes()), (OP_PUSH_BACK, Some("k".into()), Some(&b"v"[..])));
    let r = rec_hset("k", "f", b"v");
    let mut c = Cursor::new(&r);
    assert_eq!(
        (r[0], c.string(), c.string(), c.bytes()),
        (OP_HSET, Some("k".into()), Some("f".into()), Some(&b"v"[..]))
    );
    let r = rec_hdel("k", "f");
    let mut c = Cursor::new(&r);
    assert_eq!((r[0], c.string(), c.string()), (OP_HDEL, Some("k".into()), Some("f".into())));
    let r = rec_smember(OP_SADD, "k", b"m");
    let mut c = Cursor::new(&r);
    assert_eq!((r[0], c.string(), c.bytes()), (OP_SADD, Some("k".into()), Some(&b"m"[..])));
    let r = rec_zadd("k", f(1.5), b"m");
    let mut c = Cursor::new(&r);
    assert_eq!(
        (r[0], c.string(), c.score(), c.bytes()),
        (OP_ZADD, Some("k".into()), Some(f(1.5)), Some(&b"m"[..]))
    );
    let r = rec_zrem("k", b"m");
    let mut c = Cursor::new(&r);
    assert_eq!((r[0], c.string(), c.bytes()), (OP_ZREM, Some("k".into()), Some(&b"m"[..])));
}

#[test]
fn a_cursor_stops_at_the_end() {
    let data = [1u8, 5, 0, 0, 0, b'x'];
    let mut c = Cursor::new(&data);
    assert_eq!(c.bytes(), None); // runs past the end
    assert_eq!(c.pos, 5); // behind the length
    assert_eq!(c.u64(), None);
    let mut c = Cursor::new(&[]);
    assert_eq!(c.u32(), None);
    assert_eq!(c.string(), None);
    let bad = [1u8, 1, 0, 0, 0, 0xff];
    let mut c = Cursor::new(&bad);
    assert_eq!(c.string(), None); // not UTF-8
    assert_eq!(c.pos, 6);
}

#[test]
fn a_sorted_map_keeps_its_order() {
    let mut m: SortedMap<String, u64> = SortedMap::new();
    for (i, k) in ["m", "c", "z", "a", "mm"].iter().enumerate() {
        assert_eq!(m.insert(k.to_string(), i as u64), None);
    }
    assert_eq!(m.insert("c".into(), 9), Some(1));
    assert_eq!(m.len(), 5);
    let keys: Vec<&String> = (0..m.len()).map(|i| m.key_at(i)).collect();
    assert_eq!(keys, ["a", "c", "m", "mm", "z"]);
    assert_eq!(*m.val_at(1), 9);
    assert_eq!(m.get("mm"), Some(&4));
    assert_eq!(m.get("x"), None);
    *m.get_mut("a").unwrap() = 7;
    assert_eq!(m.remove("a"), Some(7));
    assert_eq!(m.remove("a"), None);
    assert!(!m.contains("a"));
    assert_eq!(m.place_of("z"), Some(3));
    m.clear();
    assert_eq!(m.len(), 0);
}

#[test]
fn bounds_of_a_range() {
    assert_eq!(range_bounds(4, 1, 2), (1, 3));
    assert_eq!(range_bounds(4, i64::MIN, i64::MAX), (0, 4));
    let (from, to) = range_bounds(4, 4, 9);
    assert_eq!(from, to);
    let (from, to) = range_bounds(0, 0, -1);
    assert_eq!(from, to);
}

#[test]
fn recovery_is_told_as_it_was() {
    assert_eq!(Recovery::default(), Recovery { applied: 0, truncated: false });
    let info: RecoveryInfo = Recovery { applied: 3, truncated: true }.into();
    assert_eq!(info, RecoveryInfo { applied: 3, truncated: true });
}

#[test]
fn the_clock_moves_on() {
    let mut s = Store::new();
    s.set("k".into(), b("v"), Some(60_000)).unwrap();
    let left = s.ttl("k");
    assert!(left > 0 && left <= 60_000);
    // far from the epoch
    s.expire_at("k", 1, 1_000_000_000_000).unwrap();
    assert_eq!(s.get("k"), Ok(None));
}

#[test]
fn a_clock_before_the_epoch_stands_for_the_epoch() {
    assert_eq!(time_of_reading(Some(1_700_000_000_000)), 1_700_000_000_000);
    assert_eq!(time_of_reading(Some(0)), 0);
    assert_eq!(time_of_reading(None), 0);
}
