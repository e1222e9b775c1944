use irv::ElectionError;
use irv::ballot::CandidateId;
use irv::ballot::Voter;
use irv::ballot::parse_ballots;

#[test]
fn candidate_from_str_takes_last_digit() {
    assert_eq!(CandidateId::from_str("Steampunk 3").unwrap().0, 3);
    assert_eq!(CandidateId::from_str("a1b2").unwrap().0, 2);
    assert_eq!(CandidateId::from_str("7").unwrap().0, 7);
    assert_eq!(CandidateId::from_str("option 10").unwrap().0, 0);
}

#[test]
fn candidate_from_str_rejects_digitless_field() {
    match CandidateId::from_str("abc") {
        Err(ElectionError::MalformedBallotField(f)) => assert_eq!(f, "abc"),
        _ => panic!("expected a malformed-field error carrying the field"),
    }
    assert!(CandidateId::from_str("").is_err());
}

#[test]
fn candidate_names_with_unknown_fallback() {
    assert_eq!(CandidateId(1).name(), "Medieval Fantasy");
    assert_eq!(CandidateId(2).name(), "Alternate Universe");
    assert_eq!(CandidateId(3).name(), "Steampunk");
    assert_eq!(CandidateId(4).name(), "Vestiges");
    assert_eq!(CandidateId(5).name(), "Invasion");
    assert_eq!(CandidateId(0).name(), "Unknown");
    assert_eq!(CandidateId(9).name(), "Unknown");
}

#[test]
fn voter_parse_preserves_field_order() {
    let fields = vec!["x1".to_string(), "y2".to_string(), "z3".to_string()];
    let v = Voter::try_parse_from_row(&fields).unwrap();
    let ids: Vec<usize> = v.choices.iter().map(|c| c.0).collect();
    assert_eq!(ids, vec![1, 2, 3]);
}

#[test]
fn voter_parse_keeps_duplicates() {
    let fields = vec!["a2".to_string(), "b2".to_string()];
    let v = Voter::try_parse_from_row(&fields).unwrap();
    let ids: Vec<usize> = v.choices.iter().map(|c| c.0).collect();
    assert_eq!(ids, vec![2, 2]);
}

#[test]
fn voter_parse_fails_on_first_bad_field() {
    let fields = vec![
        "x1".to_string(),
        "bad".to_string(),
        "z3".to_string(),
        "worse".to_string(),
    ];
    match Voter::try_parse_from_row(&fields) {
        Err(ElectionError::MalformedBallotField(f)) => assert_eq!(f, "bad"),
        _ => panic!("expected a malformed-field error carrying the first bad field"),
    }
}

#[test]
fn parse_ballots_is_all_or_nothing() {
    let rows = vec![vec!["a1".to_string()], vec!["nope".to_string()]];
    match parse_ballots(&rows) {
        Err(ElectionError::MalformedBallotField(f)) => assert_eq!(f, "nope"),
        _ => panic!("one malformed row must fail the whole batch"),
    }

    let rows = vec![
        vec!["a1".to_string(), "b2".to_string()],
        vec!["c3".to_string()],
    ];
    let vs = parse_ballots(&rows).unwrap();
    assert_eq!(vs.len(), 2);
    assert_eq!(vs[0].choices[0].0, 1);
    assert_eq!(vs[0].choices[1].0, 2);
    assert_eq!(vs[1].choices[0].0, 3);
}
