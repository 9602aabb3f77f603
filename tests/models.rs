use birdie::{bad_request, internal_error, Named, Outing, OutingDetails, OutingId, Timestamp};

#[test]
fn details_list_people_in_order() {
    let outing = Outing {
        outing_id: OutingId::try_from_i32(3).unwrap(),
        created_at: Timestamp { micros: 1_700_000_000_000_000 },
        name: "foo".to_string(),
    };
    let names = vec![
        Named { name: "test person".to_string() },
        Named { name: "testy mctestface".to_string() },
    ];
    let details = OutingDetails::new(outing.clone(), names);
    assert_eq!(details.outing_id, outing.outing_id);
    assert_eq!(details.created_at, outing.created_at);
    assert_eq!(details.name, "foo");
    assert_eq!(details.people, vec!["test person".to_string(), "testy mctestface".to_string()]);
}

#[test]
fn details_of_outing_nobody_joined() {
    let outing = Outing {
        outing_id: OutingId::try_from_i32(0).unwrap(),
        created_at: Timestamp { micros: 0 },
        name: "bar".to_string(),
    };
    assert!(OutingDetails::new(outing, vec![]).people.is_empty());
}

#[test]
fn error_responses_carry_status_and_message() {
    assert_eq!(bad_request("no such column".to_string()), (400, "no such column".to_string()));
    assert_eq!(internal_error("pool closed".to_string()), (500, "pool closed".to_string()));
}
