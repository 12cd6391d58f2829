use strenor::crc::crc32;
use strenor::record::{rec_set, Cursor, OP_SET};

#[test]
fn crc32_matches_known_vector() {
    // "123456789" -> 0xCBF43926 is the standard CRC-32/IEEE check value.
    assert_eq!(crc32(b"123456789"), 0xCBF4_3926);
    assert_eq!(crc32(b""), 0);
}

#[test]
fn record_roundtrip_via_cursor() {
    let r = rec_set("k", b"val", Some(42));
    assert_eq!(r[0], OP_SET);
    let mut c = Cursor::new(&r);
    assert_eq!(c.string().unwrap(), "k");
    assert_eq!(c.u64().unwrap(), 42);
    assert_eq!(c.bytes().unwrap(), b"val");
}
