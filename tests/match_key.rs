use clipcrab::match_key::{KeyParseError, MatchKey};

#[test]
fn parses_qualification() {
    assert_eq!(MatchKey::parse("Qualification 7"), Ok(MatchKey::Qualification { num: 7 }));
    assert_eq!(MatchKey::parse("  Qualification 12 of 40 "), Ok(MatchKey::Qualification { num: 12 }));
}

#[test]
fn parses_playoff_forms() {
    assert_eq!(
        MatchKey::parse("Playoff Match 4"),
        Ok(MatchKey::Playoff { num: 4, tiebreaker: 1 })
    );
    assert_eq!(MatchKey::parse("Match 4"), Ok(MatchKey::Playoff { num: 4, tiebreaker: 1 }));
    assert_eq!(
        MatchKey::parse("Playoff Match 4 Tiebreaker"),
        Ok(MatchKey::Playoff { num: 4, tiebreaker: 2 })
    );
}

#[test]
fn playoff_with_numbered_tiebreaker() {
    assert_eq!(
        MatchKey::parse("Playoff Match 3 Tiebreaker 2"),
        Ok(MatchKey::Playoff { num: 3, tiebreaker: 3 })
    );
}

#[test]
fn rejects_unknown_and_bad_numbers() {
    assert_eq!(MatchKey::parse("Practice 3"), Err(KeyParseError::UnknownFormat));
    assert_eq!(MatchKey::parse(""), Err(KeyParseError::UnknownFormat));
    assert_eq!(MatchKey::parse("Qualification x"), Err(KeyParseError::InvalidNumber));
    assert_eq!(MatchKey::parse("Qualification"), Err(KeyParseError::UnknownFormat));
    assert_eq!(MatchKey::parse("Playoff Match -1"), Err(KeyParseError::InvalidNumber));
    assert_eq!(
        MatchKey::parse("Playoff Match 1 Tiebreaker 18446744073709551615"),
        Err(KeyParseError::InvalidNumber)
    );
}

#[test]
fn from_str_matches_parse() {
    let k: MatchKey = "Qualification 9".parse().unwrap();
    assert_eq!(k, MatchKey::Qualification { num: 9 });
    assert!("nothing here".parse::<MatchKey>().is_err());
}

#[test]
fn formats_each_form() {
    assert_eq!(MatchKey::Qualification { num: 7 }.to_string(), "Qualification 7");
    assert_eq!(MatchKey::Playoff { num: 3, tiebreaker: 1 }.to_string(), "Playoff Match 3");
    assert_eq!(MatchKey::Playoff { num: 3, tiebreaker: 2 }.to_string(), "Playoff Match 3 Tiebreaker");
    assert_eq!(MatchKey::Playoff { num: 3, tiebreaker: 5 }.to_string(), "Playoff Match 3 Tiebreaker 4");
    assert_eq!(MatchKey::Qualification { num: 0 }.to_string(), "Qualification 0");
}

#[test]
fn text_round_trip() {
    let keys = [
        MatchKey::Qualification { num: 0 },
        MatchKey::Qualification { num: 123456789 },
        MatchKey::Qualification { num: u64::MAX },
        MatchKey::Playoff { num: 1, tiebreaker: 1 },
        MatchKey::Playoff { num: 10, tiebreaker: 2 },
        MatchKey::Playoff { num: 10, tiebreaker: 3 },
        MatchKey::Playoff { num: u64::MAX, tiebreaker: u64::MAX },
    ];
    for k in keys {
        assert_eq!(MatchKey::parse(&k.to_string()), Ok(k));
    }
}

#[test]
fn qualifications_before_playoffs() {
    let q = MatchKey::Qualification { num: 1000 };
    let p = MatchKey::Playoff { num: 1, tiebreaker: 1 };
    assert!(q < p);
    assert!(!(p < q));
    assert_eq!(q.compare(&p), std::cmp::Ordering::Less);
}

#[test]
fn order_within_kind() {
    assert!(MatchKey::Qualification { num: 2 } < MatchKey::Qualification { num: 10 });
    assert!(MatchKey::Playoff { num: 2, tiebreaker: 5 } < MatchKey::Playoff { num: 3, tiebreaker: 1 });
    assert!(MatchKey::Playoff { num: 3, tiebreaker: 1 } < MatchKey::Playoff { num: 3, tiebreaker: 2 });
    let a = MatchKey::Playoff { num: 3, tiebreaker: 2 };
    assert_eq!(a.compare(&a), std::cmp::Ordering::Equal);
    let mut keys = vec![
        MatchKey::Playoff { num: 1, tiebreaker: 2 },
        MatchKey::Qualification { num: 3 },
        MatchKey::Playoff { num: 1, tiebreaker: 1 },
        MatchKey::Qualification { num: 1 },
    ];
    keys.sort();
    assert_eq!(
        keys,
        vec![
            MatchKey::Qualification { num: 1 },
            MatchKey::Qualification { num: 3 },
            MatchKey::Playoff { num: 1, tiebreaker: 1 },
            MatchKey::Playoff { num: 1, tiebreaker: 2 },
        ]
    );
}
