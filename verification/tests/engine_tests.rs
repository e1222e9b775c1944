use irv::ElectionError;
use irv::ballot::CandidateId;
use irv::ballot::Voter;
use irv::engine::Eliminated;
use irv::engine::leader;
use irv::engine::loser;
use irv::engine::run_election;
use irv::engine::strip_front;
use irv::engine::tally_round;

fn voter(prefs: &[usize]) -> Voter {
    Voter {
        choices: prefs.iter().map(|&p| CandidateId(p)).collect(),
    }
}

#[test]
fn tally_counts_front_preferences_only() {
    let voters = vec![voter(&[1, 2]), voter(&[1]), voter(&[3]), voter(&[])];
    let t = tally_round(&voters);
    assert_eq!(t.len(), 10);
    assert_eq!(t[1], 2);
    assert_eq!(t[2], 0);
    assert_eq!(t[3], 1);
    assert_eq!(t[0], 0);
}

#[test]
fn leader_and_loser_break_ties_to_the_lowest_identifier() {
    let mut t = vec![0usize; 10];
    t[2] = 3;
    t[4] = 3;
    t[6] = 1;
    t[7] = 1;
    assert_eq!(leader(&t), Some(CandidateId(2)));
    assert_eq!(loser(&t).0, 6);

    let zeros = vec![0usize; 10];
    assert_eq!(leader(&zeros), None);
}

#[test]
fn strip_front_removes_leading_eliminated_entries() {
    let mut e = Eliminated::new();
    e.insert(CandidateId(1));
    e.insert(CandidateId(2));
    assert!(e.contains(CandidateId(1)));
    assert!(!e.contains(CandidateId(3)));

    let mut v = voter(&[1, 2, 3, 1]);
    strip_front(&mut v, &e);
    let ids: Vec<usize> = v.choices.iter().map(|c| c.0).collect();
    assert_eq!(ids, vec![3, 1]);

    let mut v = voter(&[2, 1, 2]);
    strip_front(&mut v, &e);
    assert!(v.choices.is_empty());
}

#[test]
fn majority_first_preference_wins_round_one() {
    // choice 1 is the first preference of three of five ballots: a strict
    // majority, so the run ends in round 1 with the exact percentage 60%
    let voters = vec![
        voter(&[1]),
        voter(&[1, 2]),
        voter(&[1]),
        voter(&[2]),
        voter(&[2]),
    ];
    let res = run_election(voters).unwrap();
    assert_eq!(res.rounds.len(), 1);
    assert!(res.rounds[0].eliminated.is_none());
    assert_eq!(res.winner.0, 1);
    assert_eq!(res.winner_votes, 3);
    assert_eq!(res.total_ballots, 5);
    let pct = res.winner_votes as f64 / res.total_ballots as f64 * 100.0;
    assert_eq!(pct, 60.0);
}

#[test]
fn round_one_tie_eliminates_the_minimum() {
    // first preferences 1,1,2,2,3: choices 1 and 2 tie at two votes with no
    // majority (threshold 3), so the minimum (choice 3, one vote) is
    // eliminated and the engine re-tallies
    let voters = vec![
        voter(&[1]),
        voter(&[1]),
        voter(&[2]),
        voter(&[2]),
        voter(&[3]),
    ];
    match run_election(voters) {
        Err(ElectionError::ExhaustedElectorate(rounds)) => {
            let r1 = &rounds[0];
            assert_eq!(r1.number, 1);
            assert_eq!(r1.tally[1], 2);
            assert_eq!(r1.tally[2], 2);
            assert_eq!(r1.tally[3], 1);
            assert_eq!(r1.leader, CandidateId(1));
            assert_eq!(r1.eliminated, Some(CandidateId(3)));
            // with no later preferences anywhere, every ballot eventually
            // exhausts against the fixed majority threshold
            assert_eq!(rounds.len(), 3);
        }
        _ => panic!("expected the run to end with an exhausted electorate"),
    }
}

#[test]
fn two_round_runoff_transfers_votes() {
    // round 1: 1->2, 2->1, 3->2; no majority; choice 2 is eliminated and its
    // ballot transfers to choice 3; round 2: 3 holds 3 of 5 votes (60%)
    let voters = vec![
        voter(&[1, 2]),
        voter(&[1, 2]),
        voter(&[2, 3]),
        voter(&[3, 1]),
        voter(&[3, 1]),
    ];
    let res = run_election(voters).unwrap();
    assert_eq!(res.total_ballots, 5);
    assert_eq!(res.rounds.len(), 2);
    let r1 = &res.rounds[0];
    assert_eq!(r1.tally[1], 2);
    assert_eq!(r1.tally[2], 1);
    assert_eq!(r1.tally[3], 2);
    assert_eq!(r1.eliminated, Some(CandidateId(2)));
    let r2 = &res.rounds[1];
    assert_eq!(r2.number, 2);
    assert_eq!(r2.tally[1], 2);
    assert_eq!(r2.tally[3], 3);
    assert!(r2.eliminated.is_none());
    assert_eq!(res.winner, CandidateId(3));
    assert_eq!(res.winner_votes, 3);
    let pct = res.winner_votes as f64 / res.total_ballots as f64 * 100.0;
    assert_eq!(pct, 60.0);
}

#[test]
fn single_choice_wins_round_one_at_full_vote() {
    let voters = vec![voter(&[2]), voter(&[2]), voter(&[2]), voter(&[2])];
    let res = run_election(voters).unwrap();
    assert_eq!(res.rounds.len(), 1);
    assert!(res.rounds[0].eliminated.is_none());
    assert_eq!(res.winner, CandidateId(2));
    assert_eq!(res.winner_votes, 4);
    assert_eq!(res.total_ballots, 4);
    let pct = res.winner_votes as f64 / res.total_ballots as f64 * 100.0;
    assert_eq!(pct, 100.0);
}

#[test]
fn eliminated_choices_never_return() {
    // each round eliminates a fresh choice, and no earlier loser is ever
    // reported as leader or eliminated again
    let voters = vec![
        voter(&[1]),
        voter(&[1]),
        voter(&[2]),
        voter(&[2]),
        voter(&[3]),
    ];
    match run_election(voters) {
        Err(ElectionError::ExhaustedElectorate(rounds)) => {
            let mut seen: Vec<usize> = Vec::new();
            for r in &rounds {
                assert!(!seen.contains(&r.leader.0));
                if let Some(l) = r.eliminated {
                    assert!(!seen.contains(&l.0));
                    seen.push(l.0);
                }
            }
            assert_eq!(seen, vec![3, 1, 2]);
        }
        _ => panic!("expected the run to end with an exhausted electorate"),
    }
}

#[test]
fn tally_sums_to_total_minus_exhausted() {
    // round 1 counts all five ballots; from round 2 on, the ballot ranking
    // only the eliminated choice 5 is exhausted and the sums drop to four
    let voters = vec![
        voter(&[5]),
        voter(&[1, 2]),
        voter(&[1, 2]),
        voter(&[2]),
        voter(&[2]),
    ];
    let res = run_election(voters).unwrap();
    let sums: Vec<usize> = res.rounds.iter().map(|r| r.tally.iter().sum()).collect();
    assert_eq!(sums, vec![5, 4, 4]);
    assert!(sums.iter().all(|&s| s <= res.total_ballots));
}

#[test]
fn exhausted_voter_causes_no_error() {
    // the ballot ranking only choice 5 exhausts in round 1's elimination and
    // then contributes nothing, while the majority denominator stays at 5
    let voters = vec![
        voter(&[5]),
        voter(&[1, 2]),
        voter(&[1, 2]),
        voter(&[2]),
        voter(&[2]),
    ];
    let res = run_election(voters).unwrap();
    assert_eq!(res.rounds.len(), 3);
    assert_eq!(res.rounds[0].eliminated, Some(CandidateId(5)));
    assert_eq!(res.rounds[1].eliminated, Some(CandidateId(1)));
    assert_eq!(res.rounds[2].tally[5], 0);
    assert_eq!(res.winner, CandidateId(2));
    assert_eq!(res.winner_votes, 4);
    assert_eq!(res.total_ballots, 5);
}
