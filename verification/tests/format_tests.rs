use mconfig::MCError;
use mconfig::MConfig;

/// A buffer with a well-formed header in front of the given entries region.
fn with_header(region: &[u8]) -> Vec<u8> {
    let mut v = vec![0x4d, 0x43, 0x4f, 0x4e, 0x46, 0x00];
    v.extend_from_slice(region);
    v
}

#[test]
fn serialized_buffer_shape() {
    let mut mc = MConfig::builder().secret("TACOS").try_build().unwrap();
    mc.try_insert("Hello".to_string(), Some("World".to_string()))
        .expect("Hello failed");
    mc.try_insert("Bye".to_string(), None).expect("Bye failed");

    let buf = mc.to_vec();
    assert_eq!(buf.len(), 8192);
    assert_eq!(&buf[0..6], &[0x4d, 0x43, 0x4f, 0x4e, 0x46, 0x00]);

    let rd = MConfig::builder()
        .load(buf)
        .secret("TACOS")
        .try_build()
        .unwrap();
    assert_eq!(rd.get("Hello"), Some(Some("World".to_string())).as_ref());
    assert_eq!(rd.get("Bye"), Some(None).as_ref());
    assert_eq!(rd.len(), 2);
}

#[test]
fn too_short_buffer_fails() {
    let r = MConfig::builder().load(vec![0x4d, 0x43, 0x4f]).try_build();
    assert_eq!(r.err(), Some(MCError::TooShort));
}

#[test]
fn too_long_buffer_fails() {
    let r = MConfig::builder().load(vec![0u8; 8193]).try_build();
    assert_eq!(r.err(), Some(MCError::TooBig));
}

#[test]
fn corrupt_magic_fails() {
    let mut buf = with_header(&[0]);
    buf.resize(8192, 0);
    buf[0] = 0x00;
    let r = MConfig::builder().load(buf).try_build();
    assert_eq!(r.err(), Some(MCError::BadHeader));
}

#[test]
fn unknown_version_fails() {
    let mut buf = with_header(&[0]);
    buf[5] = 0x01;
    let r = MConfig::builder().load(buf).try_build();
    assert_eq!(r.err(), Some(MCError::UnknownVersion));
}

#[test]
fn sentinel_alone_is_empty_store() {
    let mc = MConfig::builder().load(with_header(&[0])).try_build().unwrap();
    assert_eq!(mc.len(), 0);
    assert_eq!(mc.get("anything"), None);
}

#[test]
fn header_alone_is_empty_store() {
    let mc = MConfig::builder().load(with_header(&[])).try_build().unwrap();
    assert_eq!(mc.len(), 0);
}

#[test]
fn truncated_key_fails() {
    let r = MConfig::builder().load(with_header(&[5, 97])).try_build();
    assert_eq!(r.err(), Some(MCError::TruncatedKey));
}

#[test]
fn missing_value_length_fails() {
    let r = MConfig::builder().load(with_header(&[1, 97])).try_build();
    assert_eq!(r.err(), Some(MCError::MissingKey));
}

#[test]
fn truncated_value_fails() {
    let r = MConfig::builder()
        .load(with_header(&[1, 97, 5, 98]))
        .try_build();
    assert_eq!(r.err(), Some(MCError::TruncatedValue));
}

#[test]
fn invalid_key_utf8_fails() {
    let r = MConfig::builder().load(with_header(&[1, 0xff, 0])).try_build();
    assert_eq!(r.err(), Some(MCError::InvalidUTF8));
}

#[test]
fn invalid_value_utf8_fails() {
    let r = MConfig::builder()
        .load(with_header(&[1, 97, 1, 0xff]))
        .try_build();
    assert_eq!(r.err(), Some(MCError::InvalidUTF8));
}

#[test]
fn parses_explicit_bytes() {
    // "hi" with no value, then "a" mapped to "z", then the sentinel.
    let mc = MConfig::builder()
        .load(with_header(&[2, 104, 105, 0, 1, 97, 1, 122, 0]))
        .try_build()
        .unwrap();
    assert_eq!(mc.len(), 2);
    assert_eq!(mc.get("hi"), Some(None).as_ref());
    assert_eq!(mc.get("a"), Some(Some("z".to_string())).as_ref());
}

#[test]
fn later_duplicate_key_wins() {
    // "a" -> "x" followed by "a" -> "y": the later binding wins.
    let mc = MConfig::builder()
        .load(with_header(&[1, 97, 1, 120, 1, 97, 1, 121, 0]))
        .try_build()
        .unwrap();
    assert_eq!(mc.len(), 1);
    assert_eq!(mc.get("a"), Some(Some("y".to_string())).as_ref());
}

#[test]
fn padding_after_sentinel_is_ignored() {
    let mut buf = with_header(&[1, 97, 0, 0]);
    buf.resize(8192, 0xC3);
    let mc = MConfig::builder().load(buf).try_build().unwrap();
    assert_eq!(mc.len(), 1);
    assert_eq!(mc.get("a"), Some(None).as_ref());
}

#[test]
fn xor_twice_is_identity() {
    let data = vec![1u8, 2, 3, 250, 0, 77];
    let secret = vec![10u8, 20, 30];
    let once = mconfig::codec::xor_buffer(data.clone(), &secret);
    assert_ne!(once, data);
    let twice = mconfig::codec::xor_buffer(once, &secret);
    assert_eq!(twice, data);
}

#[test]
fn empty_secret_leaves_bytes_alone() {
    let data = vec![9u8, 8, 7];
    let out = mconfig::codec::xor_buffer(data.clone(), &Vec::new());
    assert_eq!(out, data);
}

#[test]
fn unicode_entries_round_trip() {
    let key = "h\u{e9}llo".to_string();
    let val = "w\u{f6}rld\u{2713}".to_string();
    let mut mc = MConfig::builder().secret("cl\u{e9}").try_build().unwrap();
    mc.try_insert(key.clone(), Some(val.clone())).unwrap();
    let rd = MConfig::builder()
        .load(mc.to_vec())
        .secret("cl\u{e9}")
        .try_build()
        .unwrap();
    assert_eq!(rd.get(&key), Some(Some(val)).as_ref());
}
