use mconfig::MCError;
use mconfig::MConfig;

#[test]
fn key_retrievable_with_secret() {
    let mut mc = MConfig::builder()
        .secret("secret secret, I've got a secret")
        .try_build()
        .unwrap();

    let _ = mc.try_insert("Test Key".to_string(), Some("Test Value".to_string()));

    assert_eq!(
        mc.get("Test Key"),
        Some(Some("Test Value".to_string())).as_ref()
    );
}

#[test]
fn key_retrievable_without_secret() {
    let mut mc = MConfig::builder().try_build().unwrap();

    let _ = mc.try_insert("Test Key".to_string(), Some("Test Value".to_string()));

    assert_eq!(
        mc.get("Test Key"),
        Some(Some("Test Value".to_string())).as_ref()
    );
}

#[test]
fn to_and_from_vec() {
    let mut before_vec = MConfig::builder()
        .secret("I like TACOS")
        .try_build()
        .unwrap();
    before_vec
        .try_insert("Hello".to_string(), Some("World".to_string()))
        .unwrap();

    let mcv = before_vec.to_vec();

    let after_vec = MConfig::builder()
        .load(mcv)
        .secret("I like TACOS")
        .try_build()
        .unwrap();

    assert_eq!(
        before_vec.get("Hello"),
        Some(Some("World".to_string())).as_ref()
    );
    assert_eq!(
        after_vec.get("Hello"),
        Some(Some("World".to_string())).as_ref()
    );
}

#[test]
#[should_panic]
fn bad_key_fails() {
    let mut before_vec = MConfig::builder()
        .secret("I like TACOS")
        .try_build()
        .unwrap();
    before_vec
        .try_insert("Hello".to_string(), Some("World".to_string()))
        .unwrap();

    let mcv = before_vec.to_vec();

    let after_vec = MConfig::builder()
        .load(mcv)
        .secret("I hate TACOS")
        .try_build()
        .unwrap();

    assert_eq!(
        before_vec.get("Hello"),
        Some(Some("World".to_string())).as_ref()
    );
    assert_eq!(
        after_vec.get("Hello"),
        Some(Some("World".to_string())).as_ref()
    );
}

#[test]
fn maximum_length_fails() {
    let mut testmcnf = MConfig::builder().try_build().unwrap();

    //insert key-value pairs totalling 10 bytes, plus two for length, totalling 12
    //enough times to almost fill it
    for i in 0..(mconfig::MCONFIG_SIZE - mconfig::HEADER_SIZE) / 12 {
        let k = format!("key{:0>3}", i);

        testmcnf
            .try_insert(k, Some("1234".to_string()))
            .expect("Too big too soon");
    }

    assert_eq!(
        testmcnf.try_insert("final_key".to_string(), Some("oops".to_string())),
        Err(MCError::TooBig)
    );
}
