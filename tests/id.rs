use souvenir::{parse_base32, stringify_base32, DecodeError, Error, Id, Type};

struct User;

impl Type for User {
    fn prefix() -> &'static str {
        "user"
    }
}

#[test]
fn parse_and_format_user() {
    let id: Id<User> = Id::parse("user_4n3y65asan4bj").unwrap();
    assert_eq!(id.to_string(), "user_4n3y65asan4bj");
}

#[test]
fn prefix_mismatch_carries_both_prefixes() {
    match Id::<User>::parse("order_4n3y65asan4bj") {
        Err(Error::PrefixMismatch { expected, actual }) => {
            assert_eq!(expected, "user");
            assert_eq!(actual, "order");
        }
        _ => panic!("expected a prefix mismatch"),
    }
}

#[test]
fn short_payload_is_rejected() {
    assert!(matches!(
        Id::<User>::parse("user_tooshort"),
        Err(Error::InvalidPayload(DecodeError::InvalidLength))
    ));
}

#[test]
fn missing_separator_is_rejected() {
    assert!(matches!(Id::<User>::parse("nosubstringhere"), Err(Error::InvalidFormat)));
}

#[test]
fn foreign_symbols_are_rejected() {
    assert!(matches!(
        Id::<User>::parse("user_4N3Y65ASAN4BJ"),
        Err(Error::InvalidPayload(DecodeError::InvalidSymbol))
    ));
    assert!(matches!(
        Id::<User>::parse("user_4n3y65asan4b!"),
        Err(Error::InvalidPayload(DecodeError::InvalidSymbol))
    ));
    assert!(matches!(
        Id::<User>::parse("user_4n3y65asan_bj"),
        Err(Error::InvalidPayload(DecodeError::InvalidSymbol))
    ));
}

#[test]
fn leading_symbol_overflow_is_rejected() {
    assert!(matches!(parse_base32("g000000000000"), Err(DecodeError::Overflow)));
    assert_eq!(parse_base32("f000000000000").unwrap(), [0xf0, 0, 0, 0, 0, 0, 0, 0]);
    assert!(matches!(
        Id::<User>::parse("user_zzzzzzzzzzzzz"),
        Err(Error::InvalidPayload(DecodeError::Overflow))
    ));
}

#[test]
fn integer_round_trips() {
    for v in [0u64, 1, 42, u64::MAX, 1 << 63] {
        assert_eq!(Id::<User>::from_u64(v).to_u64(), v);
    }
    for v in [0i64, -1, i64::MIN, i64::MAX, 12345] {
        assert_eq!(Id::<User>::from_i64(v).to_i64(), v);
    }
    assert_eq!(Id::<User>::from_i64(-1).to_u64(), u64::MAX);
    assert_eq!(Id::<User>::from_u64(0x0102030405060708).to_bytes(), [1, 2, 3, 4, 5, 6, 7, 8]);
}

#[test]
fn token_round_trip() {
    let bytes = [0xff, 0xff, 0xff, 0xff, 0xff, 0xff, 0xff, 0xff];
    let t = stringify_base32(bytes).unwrap();
    assert_eq!(t, "fzzzzzzzzzzzz");
    assert_eq!(parse_base32(&t).unwrap(), bytes);
    assert_eq!(stringify_base32([0; 8]).unwrap(), "0000000000000");
    assert_eq!(stringify_base32([0, 0, 0, 0, 0, 0, 0, 33]).unwrap(), "0000000000011");
}

#[test]
fn test_matches_parse() {
    assert!(Id::<User>::test("user_4n3y65asan4bj"));
    assert!(!Id::<User>::test("order_4n3y65asan4bj"));
    assert!(!Id::<User>::test("user"));
    let id: Id<User> = Id::new([9, 8, 7, 6, 5, 4, 3, 2]);
    assert_eq!(id.prefix(), "user");
    assert_eq!(id.as_bytes(), &[9, 8, 7, 6, 5, 4, 3, 2]);
}

#[test]
fn ordering_follows_unsigned_value() {
    let a: Id<User> = Id::new([0, 0, 0, 0, 0, 0, 0, 0xff]);
    let b: Id<User> = Id::new([0, 0, 0, 0, 0, 0, 1, 0]);
    let c: Id<User> = Id::from_i64(-1);
    assert!(a < b);
    assert!(b < c);
    assert!(!(b < a));
    assert!(a == Id::from_u64(0xff));
    assert!(a != b);
}
