use planning_poker::vote::Vote;

#[test]
fn vote_accepts_allowed_values() {
    for v in Vote::get_allowed_values() {
        let vote = Vote::new(v).unwrap();
        assert_eq!(vote.value(), v);
    }
}

#[test]
fn vote_rejects_other_values() {
    for v in [-1, 4, 6, 7, 9, 10, 14, 39, 41, 99, 101, i32::MAX, i32::MIN] {
        let r = Vote::new(v);
        assert!(r.is_err());
        assert_eq!(r.unwrap_err(), "Not allowed value");
    }
}

#[test]
fn allowed_values_are_fixed() {
    assert_eq!(Vote::get_allowed_values(), [0, 1, 2, 3, 5, 8, 13, 21, 40, 100]);
    let votes = Vote::get_allowed_votes();
    for (i, v) in Vote::get_allowed_values().iter().enumerate() {
        assert_eq!(votes[i].value(), *v);
    }
}

/// Votes 5, 8, 5: mean 6, and 5 is the closest allowed value.
#[test]
fn closest_vote_for_mean_six() {
    let v = Vote::closest_to_average(18, 3);
    assert_eq!(v.value(), 5);
}

/// Mean 1.5 is equidistant from 1 and 2; the tie goes to the smaller.
#[test]
fn closest_vote_tie_prefers_smaller() {
    let v = Vote::closest_to_average(3, 2);
    assert_eq!(v.value(), 1);
}

#[test]
fn closest_vote_edges() {
    assert_eq!(Vote::closest_to_average(0, 1).value(), 0);
    assert_eq!(Vote::closest_to_average(100, 1).value(), 100);
    // a mean far above the scale still maps to the largest allowed value
    assert_eq!(Vote::closest_to_average(100_000, 7).value(), 100);
    // mean 10.5: |8-10.5| = 2.5 < |13-10.5| = 2.5 is a tie; 8 wins
    assert_eq!(Vote::closest_to_average(21, 2).value(), 8);
    // mean 70: |40-70| = 30 == |100-70|; the tie goes to 40
    assert_eq!(Vote::closest_to_average(70, 1).value(), 40);
}
