use gossipkit::cutoffs::{max_b_age_for, max_rounds_for};
use gossipkit::id::Id;
use gossipkit::state::{Age, Round, State};

fn id_of(byte: u8) -> Id {
    Id::new([byte; 32])
}

#[test]
fn cutoff_values_are_exact() {
    // max(1, ceil(ln n)) and max(1, ceil(ln ln n)) on known points.
    assert_eq!(max_b_age_for(0), 1);
    assert_eq!(max_b_age_for(1), 1);
    assert_eq!(max_b_age_for(2), 1);
    assert_eq!(max_b_age_for(3), 2);
    assert_eq!(max_b_age_for(19), 3);
    assert_eq!(max_b_age_for(20), 3);
    assert_eq!(max_b_age_for(21), 4);
    assert_eq!(max_rounds_for(0), 1);
    assert_eq!(max_rounds_for(15), 1);
    assert_eq!(max_rounds_for(16), 2);
    assert_eq!(max_rounds_for(19), 2);
    assert_eq!(max_rounds_for(1618), 2);
    assert_eq!(max_rounds_for(1619), 3);
}

#[test]
fn median_rule_increments_age() {
    // Three peers report age 5 and one reports age 1 to a node whose age is
    // 3: greater-or-equal outnumbers less, so the age moves to 4.
    let state = State::B {
        round: Round::from(0),
        age: Age::from(3),
        player_ages: vec![
            (id_of(1), Age::from(5)),
            (id_of(2), Age::from(5)),
            (id_of(3), Age::from(5)),
            (id_of(4), Age::from(1)),
        ],
    };
    let next = state.next_round(Age::from(10), Round::from(10), Round::from(10));
    match next {
        State::B { round, age, player_ages } => {
            assert_eq!(round, Round::from(1));
            assert_eq!(age, Age::from(4));
            assert!(player_ages.is_empty());
        },
        _ => panic!("expected to remain in state B"),
    }
}

#[test]
fn median_rule_keeps_age_when_less_wins() {
    let state = State::B {
        round: Round::from(0),
        age: Age::from(3),
        player_ages: vec![
            (id_of(1), Age::from(1)),
            (id_of(2), Age::from(2)),
            (id_of(3), Age::from(5)),
        ],
    };
    let next = state.next_round(Age::from(10), Round::from(10), Round::from(10));
    match next {
        State::B { age, .. } => assert_eq!(age, Age::from(3)),
        _ => panic!("expected to remain in state B"),
    }
}

#[test]
fn peer_in_c_forces_c() {
    // A reported age at the cutoff means that peer is already in C; we
    // follow it there at once.
    let state = State::B {
        round: Round::from(0),
        age: Age::from(1),
        player_ages: vec![(id_of(1), Age::from(255))],
    };
    let next = state.next_round(Age::from(10), Round::from(10), Round::from(10));
    match next {
        State::C { rounds_in_state_b, round } => {
            assert_eq!(rounds_in_state_b, Round::from(1));
            assert_eq!(round, Round::from(0));
        },
        _ => panic!("expected state C"),
    }
}

#[test]
fn age_cap_forces_c() {
    // Bounded age: an age that has reached the cutoff leaves B on the very
    // next advance.
    let state = State::B {
        round: Round::from(0),
        age: Age::from(2),
        player_ages: Vec::new(),
    };
    let next = state.next_round(Age::from(2), Round::from(10), Round::from(10));
    assert!(matches!(next, State::C { .. }));
}

#[test]
fn round_cap_forces_d() {
    let state = State::B {
        round: Round::from(0),
        age: Age::from(1),
        player_ages: Vec::new(),
    };
    let next = state.next_round(Age::from(3), Round::from(2), Round::from(1));
    assert!(matches!(next, State::D));
}

#[test]
fn c_advances_to_d_at_caps() {
    // The total-rounds cap ends C.
    let state = State::C { rounds_in_state_b: Round::from(1), round: Round::from(0) };
    let next = state.next_round(Age::from(3), Round::from(5), Round::from(2));
    assert!(matches!(next, State::D));
    // The C-rounds cap ends C as well.
    let state = State::C { rounds_in_state_b: Round::from(0), round: Round::from(0) };
    let next = state.next_round(Age::from(3), Round::from(1), Round::from(10));
    assert!(matches!(next, State::D));
}

#[test]
fn d_is_absorbing() {
    let next = State::D.next_round(Age::from(3), Round::from(2), Round::from(2));
    assert!(matches!(next, State::D));
}

#[test]
fn termination_within_max_rounds() {
    // From a fresh initiator state, D is reached within max_rounds advances,
    // for the cutoffs of a 19-peer cluster.
    let max_b_age = Age::from(max_b_age_for(19));
    let max_c = Round::from(max_rounds_for(19));
    let max_r = Round::from(max_rounds_for(19));
    let mut state = State::new();
    let mut advances = 0;
    while !matches!(state, State::D) {
        state = state.next_round(max_b_age, max_c, max_r);
        advances += 1;
        assert!(advances <= max_rounds_for(19) as u32);
    }
    assert_eq!(advances, 2);
}

#[test]
fn new_from_player_adopts_c() {
    let from_b_peer = State::new_from_player(Age::from(1), Age::from(3));
    assert!(matches!(from_b_peer, State::B { .. }));
    let from_c_peer = State::new_from_player(Age::from(255), Age::from(3));
    assert!(matches!(from_c_peer, State::C { .. }));
}

#[test]
fn receive_rumor_latest_report_wins() {
    let mut state = State::B {
        round: Round::from(0),
        age: Age::from(1),
        player_ages: Vec::new(),
    };
    state.receive_rumor(id_of(9), Age::from(2));
    state.receive_rumor(id_of(9), Age::from(4));
    match &state {
        State::B { player_ages, .. } => {
            assert_eq!(player_ages.len(), 1);
            assert_eq!(player_ages[0].1, Age::from(4));
        },
        _ => panic!("expected state B"),
    }
}

#[test]
fn receive_rumor_is_noop_outside_b() {
    let mut state = State::D;
    state.receive_rumor(id_of(9), Age::from(2));
    assert!(matches!(state, State::D));
    let mut state = State::C { rounds_in_state_b: Round::from(1), round: Round::from(0) };
    state.receive_rumor(id_of(9), Age::from(2));
    assert!(matches!(state, State::C { .. }));
}

#[test]
fn get_age_reports_phase() {
    let b = State::B { round: Round::from(0), age: Age::from(2), player_ages: Vec::new() };
    assert_eq!(b.get_age(), Some(Age::from(2)));
    let c = State::C { rounds_in_state_b: Round::from(1), round: Round::from(0) };
    assert_eq!(c.get_age(), Some(Age::max()));
    assert_eq!(State::D.get_age(), None);
}
