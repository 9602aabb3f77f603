use birdie::{IdCodec, IdParseError, OutingId};

fn user_message(r: Result<OutingId, IdParseError>) -> String {
    match r {
        Err(e @ IdParseError::User(_)) => e.message(),
        other => panic!("expected a user error, got {:?}", other),
    }
}

#[test]
fn negative_ids_are_refused() {
    assert_eq!(user_message(OutingId::try_from_i32(-1)), "Outing IDs must not be negative");
    assert_eq!(OutingId::try_from_i32(0).unwrap().id(), 0);
    assert_eq!(OutingId::try_from_i32(i32::MAX).unwrap().id(), i32::MAX);
}

#[test]
fn decoded_values_must_be_one_small_id() {
    assert_eq!(OutingId::from_decoded(&vec![7]).unwrap().id(), 7);
    assert_eq!(OutingId::from_decoded(&vec![i32::MAX as u64]).unwrap().id(), i32::MAX);
    assert_eq!(user_message(OutingId::from_decoded(&vec![])), "Invalid outing ID provided");
    assert_eq!(user_message(OutingId::from_decoded(&vec![1, 2])), "Invalid outing ID provided");
    assert_eq!(
        user_message(OutingId::from_decoded(&vec![i32::MAX as u64 + 1])),
        "Invalid outing ID provided"
    );
}

#[test]
fn hashids_round_trip() {
    let codec = IdCodec::new().unwrap();
    for n in [0, 1, 2, 42, 500, i32::MAX] {
        let id = OutingId::try_from_i32(n).unwrap();
        let s = id.to_hashid(&codec);
        assert_ne!(s, n.to_string());
        assert!(s.len() >= 4, "{} is shorter than four characters", s);
        assert!(s.chars().all(|c| c.is_ascii_lowercase() || c.is_ascii_digit()));
        assert_eq!(OutingId::parse(&codec, &s).unwrap(), id);
    }
}

#[test]
fn distinct_ids_have_distinct_hashids() {
    let codec = IdCodec::new().unwrap();
    let a = OutingId::try_from_i32(1).unwrap().to_hashid(&codec);
    let b = OutingId::try_from_i32(2).unwrap().to_hashid(&codec);
    assert_ne!(a, b);
}

#[test]
fn garbage_is_not_a_hashid() {
    let codec = IdCodec::new().unwrap();
    let r = OutingId::parse(&codec, "!!!!");
    assert!(matches!(r, Err(IdParseError::Harsh(_))));
    assert_eq!(r.unwrap_err().message(), "Invalid ID string provided");
    assert!(matches!(OutingId::parse(&codec, ""), Err(IdParseError::Harsh(_))));
}

#[test]
fn hasher_errors_become_id_errors() {
    let e = IdParseError::from(harsh::Error::Hex);
    assert!(matches!(e, IdParseError::Harsh(_)));
    assert_eq!(e.message(), "Invalid ID string provided");
}

#[test]
fn overlong_strings_are_refused_before_decoding() {
    let codec = IdCodec::new().unwrap();
    for s in ["zzzzzzzzzzzzzzz", "a0000000000000000000", "éééééééé"] {
        let r = OutingId::parse(&codec, s);
        assert_eq!(user_message(r), "Invalid ID string provided");
    }
    assert!(OutingId::parse(&codec, "zzzzzzzzzzzzzz").is_err());
}
