use mconfig::MCError;
use mconfig::MCString;
use mconfig::MConfig;

#[test]
fn tri_state_get() {
    let mut mc = MConfig::builder().try_build().unwrap();
    assert_eq!(mc.get("absent"), None);

    mc.try_insert("k".to_string(), None).unwrap();
    assert_eq!(mc.get("k"), Some(None).as_ref());

    mc.try_insert("k".to_string(), Some("v".to_string())).unwrap();
    assert_eq!(mc.get("k"), Some(Some("v".to_string())).as_ref());
}

#[test]
fn insert_returns_prior_value() {
    let mut mc = MConfig::builder().try_build().unwrap();
    assert_eq!(mc.try_insert("k".to_string(), None), Ok(None));
    assert_eq!(
        mc.try_insert("k".to_string(), Some("v".to_string())),
        Ok(Some(None))
    );
    assert_eq!(
        mc.try_insert("k".to_string(), Some("w".to_string())),
        Ok(Some(Some("v".to_string())))
    );
}

#[test]
fn oversized_key_rejected() {
    let mut mc = MConfig::builder().try_build().unwrap();
    let long = "a".repeat(256);
    assert_eq!(mc.try_insert(long, None), Err(MCError::KeyTooBig));
    assert_eq!(mc.len(), 0);

    let just_fits = "a".repeat(255);
    assert_eq!(mc.try_insert(just_fits, None), Ok(None));
    assert_eq!(mc.len(), 1);
}

#[test]
fn oversized_value_rejected() {
    let mut mc = MConfig::builder().try_build().unwrap();
    let long = "b".repeat(256);
    assert_eq!(
        mc.try_insert("k".to_string(), Some(long)),
        Err(MCError::ValueTooBig)
    );
    assert_eq!(mc.get("k"), None);

    let just_fits = "b".repeat(255);
    assert_eq!(mc.try_insert("k".to_string(), Some(just_fits.clone())), Ok(None));
    assert_eq!(mc.get("k"), Some(Some(just_fits)).as_ref());
}

#[test]
fn remove_returns_tri_state() {
    let mut mc = MConfig::builder().try_build().unwrap();
    mc.try_insert("gone".to_string(), Some("soon".to_string()))
        .unwrap();
    mc.try_insert("empty".to_string(), None).unwrap();

    assert_eq!(mc.remove("absent"), None);
    assert_eq!(mc.remove("gone"), Some(Some("soon".to_string())));
    assert_eq!(mc.remove("empty"), Some(None));
    assert_eq!(mc.len(), 0);
    assert_eq!(mc.get("gone"), None);
}

#[test]
fn try_get_reports_missing_key() {
    let mut mc = MConfig::builder().try_build().unwrap();
    assert_eq!(mc.try_get("nope"), Err(MCError::MissingKey));
    mc.try_insert("yes".to_string(), Some("!".to_string())).unwrap();
    assert_eq!(mc.try_get("yes"), Ok(&Some("!".to_string())));
}

#[test]
fn contains_key_tracks_inserts() {
    let mut mc = MConfig::builder().try_build().unwrap();
    assert!(!mc.contains_key("k"));
    mc.try_insert("k".to_string(), None).unwrap();
    assert!(mc.contains_key("k"));
    mc.remove("k");
    assert!(!mc.contains_key("k"));
}

#[test]
fn iterator_walks_all_entries() {
    let mut mc = MConfig::builder().try_build().unwrap();
    mc.try_insert("a".to_string(), Some("1".to_string())).unwrap();
    mc.try_insert("b".to_string(), None).unwrap();

    let mut it = mc.iter();
    let mut seen: Vec<(String, Option<String>)> = Vec::new();
    while let Some((k, v)) = it.next() {
        seen.push((k.clone(), v.clone()));
    }
    assert_eq!(seen.len(), 2);
    assert!(seen.contains(&("a".to_string(), Some("1".to_string()))));
    assert!(seen.contains(&("b".to_string(), None)));
}

#[test]
fn set_secret_applies_to_later_buffers() {
    let mut mc = MConfig::builder().try_build().unwrap();
    mc.try_insert("k".to_string(), Some("v".to_string())).unwrap();
    mc.set_secret(Some("later".to_string()));

    let rd = MConfig::builder()
        .load(mc.to_vec())
        .secret("later")
        .try_build()
        .unwrap();
    assert_eq!(rd.get("k"), Some(Some("v".to_string())).as_ref());
}

#[test]
fn empty_string_secret_obfuscates_nothing() {
    let mut mc = MConfig::builder().secret("").try_build().unwrap();
    mc.try_insert("k".to_string(), Some("v".to_string())).unwrap();

    let rd = MConfig::builder().load(mc.to_vec()).try_build().unwrap();
    assert_eq!(rd.get("k"), Some(Some("v".to_string())).as_ref());
}

#[test]
fn serialized_len_counts_header_entries_sentinel() {
    let mut mc = MConfig::builder().try_build().unwrap();
    assert_eq!(mc.serialized_len(), 7);
    mc.try_insert("Hello".to_string(), Some("World".to_string()))
        .unwrap();
    assert_eq!(mc.serialized_len(), 19);
    mc.try_insert("Bye".to_string(), None).unwrap();
    assert_eq!(mc.serialized_len(), 24);
}

#[test]
fn build_from_entry_list() {
    let entries = vec![
        ("a".to_string(), Some("1".to_string())),
        ("b".to_string(), None),
        ("a".to_string(), Some("2".to_string())),
    ];
    let mc = MConfig::try_from_entries(entries).unwrap();
    assert_eq!(mc.len(), 2);
    assert_eq!(mc.get("a"), Some(Some("2".to_string())).as_ref());
    assert_eq!(mc.get("b"), Some(None).as_ref());

    let too_long = vec![("k".repeat(256), None)];
    assert!(matches!(
        MConfig::try_from_entries(too_long),
        Err(MCError::KeyTooBig)
    ));
}

#[test]
fn mcstring_accepts_up_to_255_bytes() {
    let s = MCString::try_from("hello").unwrap();
    assert_eq!(s.len(), 5);
    assert_eq!(s.as_str(), "hello");

    let max = "a".repeat(255);
    let m = MCString::try_from(max.as_str()).unwrap();
    assert_eq!(m.len(), 255);

    let over = "a".repeat(256);
    assert!(MCString::try_from(over.as_str()).is_err());
}
