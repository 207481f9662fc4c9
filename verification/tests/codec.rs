use tablestore::error::StoreError;
use tablestore::keys::{convert_key, generate_key, retrieve_key, Key};

fn chars(s: &str) -> Vec<char> {
    s.chars().collect()
}

#[test]
fn round_trip_every_variant() {
    let keys = vec![
        Key::I64(-1),
        Key::I64(0),
        Key::I64(i64::MIN),
        Key::I64(i64::MAX),
        Key::U64(0),
        Key::U64(u64::MAX),
        Key::Str(String::new()),
        Key::Str("hello".to_owned()),
        Key::Str("with/separator".to_owned()),
        Key::Bytea(vec![]),
        Key::Bytea(vec![0, 1, 255]),
    ];
    for k in keys {
        let pk = convert_key("App", &k);
        assert_eq!(retrieve_key("App", &pk), Ok(k));
    }
}

#[test]
fn physical_key_shape() {
    // table name, separator, tag, then sixteen hex digits for an integer
    assert_eq!(generate_key("App", 0), chars("App/u0000000000000000"));
    assert_eq!(generate_key("App", 255), chars("App/u00000000000000ff"));
    assert_eq!(convert_key("App", &Key::Str("hi".to_owned())), chars("App/shi"));
    assert_eq!(convert_key("App", &Key::Bytea(vec![0x02, 0x10])), chars("App/b0210"));
}

#[test]
fn order_isomorphism_integers() {
    let enc = |k: &Key| convert_key("T", k);
    // signed values sort with negatives first
    assert!(enc(&Key::I64(i64::MIN)) < enc(&Key::I64(-1)));
    assert!(enc(&Key::I64(-1)) < enc(&Key::I64(0)));
    assert!(enc(&Key::I64(0)) < enc(&Key::I64(1)));
    assert!(enc(&Key::I64(1)) < enc(&Key::I64(i64::MAX)));
    assert!(enc(&Key::U64(9)) < enc(&Key::U64(10)));
    assert!(enc(&Key::U64(255)) < enc(&Key::U64(256)));
}

#[test]
fn order_isomorphism_bytes_and_text() {
    let enc = |k: &Key| convert_key("T", k);
    // a two-digit pair per byte keeps byte order even across 9 -> 10
    assert!(enc(&Key::Bytea(vec![2])) < enc(&Key::Bytea(vec![16])));
    assert!(enc(&Key::Bytea(vec![1])) < enc(&Key::Bytea(vec![1, 0])));
    assert!(enc(&Key::Str("a".to_owned())) < enc(&Key::Str("ab".to_owned())));
    assert!(enc(&Key::Str("ab".to_owned())) < enc(&Key::Str("b".to_owned())));
    // cross-variant rank: bytes, signed, text, unsigned
    assert!(enc(&Key::Bytea(vec![255])) < enc(&Key::I64(i64::MIN)));
    assert!(enc(&Key::I64(i64::MAX)) < enc(&Key::Str(String::new())));
    assert!(enc(&Key::Str("zzz".to_owned())) < enc(&Key::U64(0)));
}

#[test]
fn namespace_isolation() {
    // one table name a prefix of the other, keys chosen adversarially
    let a = convert_key("A", &Key::Str("B/shello".to_owned()));
    let b = convert_key("AB", &Key::Str("hello".to_owned()));
    assert_ne!(a, b);
    let c = convert_key("App", &Key::U64(0));
    let d = convert_key("Apq", &Key::U64(0));
    assert_ne!(c, d);
}

#[test]
fn decode_rejects_malformed_keys() {
    let expect_err = |table: &str, key: &str| {
        let k = chars(key);
        match retrieve_key(table, &k) {
            Err(StoreError::KeyDecode(p)) => assert_eq!(p, k),
            other => panic!("expected a decode failure, got {:?}", other),
        }
    };
    expect_err("App", "Other/u0000000000000000"); // wrong table
    expect_err("App", "App"); // no separator
    expect_err("App", "App/x00"); // unknown tag
    expect_err("App", "App/u00"); // wrong digit count
    expect_err("App", "App/u00000000000000zz"); // not hexadecimal
    expect_err("App", "App/u00000000000000FF"); // uppercase digits
    expect_err("App", "App/b012"); // odd digit count
    expect_err("App", "App/b0g"); // not hexadecimal
}
