//! The per-rumor state machine.
//!
//! A player is implicitly in state A for a rumor it has never seen. Once the
//! rumor is known, its state is `B` (exponential-growth phase, driven by the
//! median counter rule), then `C` (quadratic-shrinking tail), then `D`
//! (terminated: never re-sent, never transitioned out of).

use vstd::prelude::*;

use crate::id::Id;

verus! {

/// Counter used by the median rule in state B. The special value `u8::MAX`
/// signals "this player is already in state C" to peers.
#[derive(Clone, Copy, Debug, PartialEq, Eq, Structural)]
pub struct Age {
    pub value: u8,
}

impl Age {
    pub fn from(value: u8) -> (r: Age)
        ensures
            r.value == value,
    {
        Age { value }
    }

    /// The age a player reports for a rumor it holds in state C.
    pub fn max() -> (r: Age)
        ensures
            r.value == u8::MAX,
    {
        Age { value: u8::MAX }
    }
}

/// Per-rumor round counter, incremented on each advance.
#[derive(Default, Clone, Copy, Debug, PartialEq, Eq, Structural)]
pub struct Round {
    pub value: u8,
}

impl Round {
    pub fn from(value: u8) -> (r: Round)
        ensures
            r.value == value,
    {
        Round { value }
    }
}

/// The reported ages as mathematical values: (identity bytes, age) pairs.
pub open spec fn ages_view(v: Seq<(Id, Age)>) -> Seq<(Seq<u8>, int)> {
    v.map_values(|p: (Id, Age)| (p.0@, p.1.value as int))
}

/// The mathematical value of a `State`: ages and rounds as integers, the
/// per-round reported ages as a sequence of (identity bytes, age) pairs.
pub enum StateV {
    B { round: int, age: int, player_ages: Seq<(Seq<u8>, int)> },
    C { rounds_in_state_b: int, round: int },
    D,
}

/// The state of a single rumor from this player's perspective.
#[derive(Debug)]
pub enum State {
    /// Exponential-growth phase. `player_ages` records, per round, the most
    /// recent age reported by each peer that sent us this rumor.
    B { round: Round, age: Age, player_ages: Vec<(Id, Age)> },
    /// Quadratic-shrinking phase. `rounds_in_state_b` preserves the B-round
    /// total for the global max-rounds cutoff.
    C { rounds_in_state_b: Round, round: Round },
    /// Propagation complete.
    D,
}

impl View for State {
    type V = StateV;

    open spec fn view(&self) -> StateV {
        match self {
            State::B { round, age, player_ages } => StateV::B {
                round: round.value as int,
                age: age.value as int,
                player_ages: ages_view(player_ages@),
            },
            State::C { rounds_in_state_b, round } => StateV::C {
                rounds_in_state_b: rounds_in_state_b.value as int,
                round: round.value as int,
            },
            State::D => StateV::D,
        }
    }
}

/// How many of the reported ages are below `age`.
pub open spec fn count_lt(ages: Seq<(Seq<u8>, int)>, age: int) -> int
    decreases ages.len(),
{
    if ages.len() == 0 {
        0
    } else {
        count_lt(ages.drop_last(), age) + if ages.last().1 < age {
            1int
        } else {
            0int
        }
    }
}

/// How many of the reported ages are at least `lo` but below `hi`.
pub open spec fn count_between(ages: Seq<(Seq<u8>, int)>, lo: int, hi: int) -> int
    decreases ages.len(),
{
    if ages.len() == 0 {
        0
    } else {
        count_between(ages.drop_last(), lo, hi) + if lo <= ages.last().1 && ages.last().1 < hi {
            1int
        } else {
            0int
        }
    }
}

/// The advance rule, on mathematical values.
///
/// From B: increment the round; at the total-rounds cap go to D. A reported
/// age at or beyond `max_b_age` (a peer already in C) forces C. Otherwise the
/// median rule runs: the age grows by one exactly when at least as many peers
/// reported an age greater than or equal to ours as reported a smaller one;
/// an age that reaches `max_b_age` forces C, and a B-to-B step clears the
/// reported ages. From C: increment the round; at either cap go to D. D is
/// absorbing.
pub open spec fn spec_next_round(s: StateV, max_b_age: int, max_c_rounds: int, max_rounds: int) -> StateV {
    match s {
        StateV::B { round, age, player_ages } => {
            let r2 = round + 1;
            if r2 >= max_rounds {
                StateV::D
            } else if exists|i: int|
                0 <= i < player_ages.len() && player_ages[i].1 >= age && player_ages[i].1
                    >= max_b_age {
                StateV::C { rounds_in_state_b: r2, round: 0 }
            } else {
                let less = count_lt(player_ages, age);
                let greater_or_equal = count_between(player_ages, age, max_b_age);
                let a2 = if greater_or_equal > less {
                    age + 1
                } else {
                    age
                };
                if a2 >= max_b_age {
                    StateV::C { rounds_in_state_b: r2, round: 0 }
                } else {
                    StateV::B { round: r2, age: a2, player_ages: Seq::empty() }
                }
            }
        },
        StateV::C { rounds_in_state_b, round } => {
            let r2 = round + 1;
            if r2 + rounds_in_state_b >= max_rounds {
                StateV::D
            } else if r2 >= max_c_rounds {
                StateV::D
            } else {
                StateV::C { rounds_in_state_b, round: r2 }
            }
        },
        StateV::D => StateV::D,
    }
}

/// The state adopted on first hearing a rumor from a peer reporting `age`:
/// B afresh if the peer is itself still in B, else C.
pub open spec fn spec_new_from_player(age: int, max_b_age: int) -> StateV {
    if age < max_b_age {
        StateV::B { round: 0, age: 1, player_ages: Seq::empty() }
    } else {
        StateV::C { rounds_in_state_b: 0, round: 0 }
    }
}

/// The reported ages with the entry for `id` set to `v`: the first entry
/// naming `id` is replaced, or a new entry is appended.
pub open spec fn ages_upsert(pa: Seq<(Seq<u8>, int)>, id: Seq<u8>, v: int) -> Seq<(Seq<u8>, int)>
    decreases pa.len(),
{
    if pa.len() == 0 {
        seq![(id, v)]
    } else if pa.first().0 == id {
        seq![(id, v)] + pa.drop_first()
    } else {
        seq![pa.first()] + ages_upsert(pa.drop_first(), id, v)
    }
}

/// Replacing the first entry naming `id` is the upsert.
pub proof fn lemma_upsert_is_update(pa: Seq<(Seq<u8>, int)>, j: int, id: Seq<u8>, v: int)
    requires
        0 <= j < pa.len(),
        pa[j].0 == id,
        forall|k: int| 0 <= k < j ==> pa[k].0 != id,
    ensures
        pa.update(j, (id, v)) == ages_upsert(pa, id, v),
    decreases pa.len(),
{
    if j == 0 {
        assert(pa.first().0 == id);
        assert(pa.update(0, (id, v)) =~= seq![(id, v)] + pa.drop_first());
    } else {
        assert(pa.first().0 != id);
        lemma_upsert_is_update(pa.drop_first(), j - 1, id, v);
        assert(pa.update(j, (id, v)).drop_first() =~= pa.drop_first().update(j - 1, (id, v)));
        assert(pa.update(j, (id, v)) =~= seq![pa.first()] + pa.update(j, (id, v)).drop_first());
    }
}

/// Appending an entry for an absent `id` is the upsert.
pub proof fn lemma_upsert_is_push(pa: Seq<(Seq<u8>, int)>, id: Seq<u8>, v: int)
    requires
        forall|k: int| 0 <= k < pa.len() ==> pa[k].0 != id,
    ensures
        pa.push((id, v)) == ages_upsert(pa, id, v),
    decreases pa.len(),
{
    if pa.len() == 0 {
        assert(pa.push((id, v)) =~= seq![(id, v)]);
    } else {
        assert(pa.first().0 != id);
        assert(forall|k: int|
            0 <= k < pa.drop_first().len() ==> (#[trigger] pa.drop_first()[k]).0 != id);
        lemma_upsert_is_push(pa.drop_first(), id, v);
        assert(pa.push((id, v)).drop_first() =~= pa.drop_first().push((id, v)));
        assert(pa.push((id, v)) =~= seq![pa.first()] + pa.push((id, v)).drop_first());
    }
}

/// The age attached when gossiping: the B-phase counter in B, the maximal
/// age in C, nothing in D.
pub open spec fn spec_get_age(s: StateV) -> Option<int> {
    match s {
        StateV::B { age, .. } => Some(age),
        StateV::C { .. } => Some(u8::MAX as int),
        StateV::D => None,
    }
}

/// No peer appears twice among the reported ages.
pub open spec fn ages_distinct(ages: Seq<(Seq<u8>, int)>) -> bool {
    forall|i: int, j: int| 0 <= i < j < ages.len() ==> ages[i].0 != ages[j].0
}

/// A state is well formed when its reported ages name each peer at most once.
pub open spec fn state_ages_wf(s: StateV) -> bool {
    match s {
        StateV::B { player_ages, .. } => ages_distinct(player_ages),
        _ => true,
    }
}

/// The invariant a reachable state keeps relative to its rumor's cutoffs.
pub open spec fn state_inv(s: StateV, max_b_age: int, max_c_rounds: int, max_rounds: int) -> bool {
    match s {
        StateV::B { round, age, .. } => 0 <= round < max_rounds && 1 <= age <= max_b_age,
        StateV::C { rounds_in_state_b, round } => 0 <= round < max_c_rounds && 0
            <= rounds_in_state_b && rounds_in_state_b + round < max_rounds,
        StateV::D => true,
    }
}

/// Position of a state along B -> C -> D.
pub open spec fn phase(s: StateV) -> int {
    match s {
        StateV::B { .. } => 0,
        StateV::C { .. } => 1,
        StateV::D => 2,
    }
}

impl Default for State {
    /// The initiator state.
    fn default() -> (r: State)
        ensures
            r@ == (StateV::B { round: 0, age: 1, player_ages: Seq::<(Seq<u8>, int)>::empty() }),
    {
        State::new()
    }
}

impl State {
    /// The state when we originate a rumor ourselves: B, age 1.
    pub fn new() -> (r: State)
        ensures
            r@ == (StateV::B { round: 0, age: 1, player_ages: Seq::<(Seq<u8>, int)>::empty() }),
    {
        let r = State::B { round: Round::from(0), age: Age::from(1), player_ages: Vec::new() };
        proof {
            assert(r@->B_player_ages =~= Seq::<(Seq<u8>, int)>::empty());
        }
        r
    }

    /// The state adopted when a peer first informs us of a rumor: B with age 1
    /// if the peer is itself still in B (its reported age is below
    /// `max_b_age`), else C.
    pub fn new_from_player(player_age: Age, max_b_age: Age) -> (r: State)
        ensures
            r@ == spec_new_from_player(player_age.value as int, max_b_age.value as int),
    {
        if player_age.value < max_b_age.value {
            State::new()
        } else {
            State::C { rounds_in_state_b: Round::from(0), round: Round::from(0) }
        }
    }

    /// Record that `player_id` sent us this rumor carrying `age`. Only
    /// meaningful in state B, where the latest report per peer wins; a no-op
    /// in C and D.
    #[verifier::loop_isolation(false)]
    pub fn receive_rumor(&mut self, player_id: Id, age: Age)
        ensures
            match old(self)@ {
                StateV::B { round: r0, age: a0, player_ages: pa } => final(self)@ matches StateV::B {
                    round: r2,
                    age: a2,
                    player_ages: pa2,
                } && r2 == r0 && a2 == a0 && ((exists|j: int|
                    0 <= j < pa.len() && pa[j].0 == player_id@ && (forall|k: int|
                        0 <= k < j ==> pa[k].0 != player_id@) && pa2 == pa.update(
                        j,
                        (player_id@, age.value as int),
                    )) || ((forall|k: int| 0 <= k < pa.len() ==> pa[k].0 != player_id@) && pa2
                    == pa.push((player_id@, age.value as int)))),
                _ => final(self)@ == old(self)@,
            },
            state_ages_wf(old(self)@) ==> state_ages_wf(final(self)@),
    {
        match self {
            State::B { player_ages, .. } => {
                let ghost pa = ages_view(player_ages@);
                let mut i: usize = 0;
                while i < player_ages.len()
                    invariant
                        0 <= i <= player_ages.len(),
                        pa == ages_view(player_ages@),
                        forall|k: int| 0 <= k < i ==> pa[k].0 != player_id@,
                    decreases player_ages.len() - i,
                {
                    if player_ages[i].0.same_as(&player_id) {
                        player_ages[i] = (player_id, age);
                        proof {
                            let pa2 = ages_view(player_ages@);
                            assert(pa2 =~= pa.update(i as int, (player_id@, age.value as int)));
                            if ages_distinct(pa) {
                                lemma_update_keeps_distinct(
                                    pa,
                                    i as int,
                                    (player_id@, age.value as int),
                                );
                            }
                        }
                        return ;
                    }
                    i += 1;
                }
                player_ages.push((player_id, age));
                proof {
                    let pa2 = ages_view(player_ages@);
                    assert(pa2 =~= pa.push((player_id@, age.value as int)));
                    if ages_distinct(pa) {
                        lemma_push_new_keeps_distinct(pa, (player_id@, age.value as int));
                    }
                }
            },
            _ => {},
        }
    }

    /// Advance this rumor by one round, consuming the state and returning the
    /// next one, exactly as `spec_next_round` states.
    pub fn next_round(self, age_max: Age, max_c_rounds: Round, max_rounds: Round) -> (r: State)
        ensures
            r@ == spec_next_round(
                self@,
                age_max.value as int,
                max_c_rounds.value as int,
                max_rounds.value as int,
            ),
            state_ages_wf(r@),
    {
        self.advanced(age_max, max_c_rounds, max_rounds)
    }

    /// The advance rule, reading the current state without consuming it.
    #[verifier::loop_isolation(false)]
    pub fn advanced(&self, age_max: Age, max_c_rounds: Round, max_rounds: Round) -> (r: State)
        ensures
            r@ == spec_next_round(
                self@,
                age_max.value as int,
                max_c_rounds.value as int,
                max_rounds.value as int,
            ),
            state_ages_wf(r@),
    {
        match self {
            State::B { round, age, player_ages } => {
                let ghost pa = ages_view(player_ages@);
                let r2: u16 = round.value as u16 + 1;
                if r2 >= max_rounds.value as u16 {
                    return State::D;
                }
                let mut less: usize = 0;
                let mut greater_or_equal: usize = 0;
                let mut i: usize = 0;
                while i < player_ages.len()
                    invariant
                        0 <= i <= player_ages.len(),
                        pa == ages_view(player_ages@),
                        less == count_lt(pa.take(i as int), age.value as int),
                        greater_or_equal == count_between(
                            pa.take(i as int),
                            age.value as int,
                            age_max.value as int,
                        ),
                        less + greater_or_equal <= i,
                        forall|k: int|
                            0 <= k < i ==> !(pa[k].1 >= age.value && pa[k].1 >= age_max.value),
                    decreases player_ages.len() - i,
                {
                    let v = player_ages[i].1.value;
                    proof {
                        assert(pa.take(i as int + 1).drop_last() =~= pa.take(i as int));
                        assert(pa.take(i as int + 1).last() == pa[i as int]);
                    }
                    if v < age.value {
                        less += 1;
                    } else if v >= age_max.value {
                        return State::C {
                            rounds_in_state_b: Round { value: r2 as u8 },
                            round: Round::from(0),
                        };
                    } else {
                        greater_or_equal += 1;
                    }
                    i += 1;
                }
                proof {
                    assert(pa.take(player_ages.len() as int) =~= pa);
                }
                let mut a2: u8 = age.value;
                if greater_or_equal > less {
                    proof {
                        lemma_count_between_pos(pa, age.value as int, age_max.value as int);
                    }
                    a2 = age.value + 1;
                }
                if a2 >= age_max.value {
                    State::C { rounds_in_state_b: Round { value: r2 as u8 }, round: Round::from(0) }
                } else {
                    let r = State::B {
                        round: Round { value: r2 as u8 },
                        age: Age { value: a2 },
                        player_ages: Vec::new(),
                    };
                    proof {
                        assert(r@->B_player_ages =~= Seq::<(Seq<u8>, int)>::empty());
                    }
                    r
                }
            },
            State::C { rounds_in_state_b, round } => {
                let r2: u16 = round.value as u16 + 1;
                if r2 + rounds_in_state_b.value as u16 >= max_rounds.value as u16 {
                    State::D
                } else if r2 >= max_c_rounds.value as u16 {
                    State::D
                } else {
                    State::C { rounds_in_state_b: *rounds_in_state_b, round: Round { value: r2 as u8 } }
                }
            },
            State::D => State::D,
        }
    }

    /// A copy of this state with the same mathematical value.
    pub fn duplicate(&self) -> (r: State)
        ensures
            r@ == self@,
    {
        match self {
            State::B { round, age, player_ages } => {
                let mut pa2: Vec<(Id, Age)> = Vec::new();
                let mut i: usize = 0;
                while i < player_ages.len()
                    invariant
                        0 <= i <= player_ages.len(),
                        pa2@ == player_ages@.take(i as int),
                    decreases player_ages.len() - i,
                {
                    pa2.push(player_ages[i]);
                    proof {
                        assert(pa2@ =~= player_ages@.take(i as int + 1));
                    }
                    i += 1;
                }
                proof {
                    assert(pa2@ =~= player_ages@);
                }
                let r = State::B { round: *round, age: *age, player_ages: pa2 };
                proof {
                    assert(r@->B_player_ages =~= self@->B_player_ages);
                }
                r
            },
            State::C { rounds_in_state_b, round } => State::C {
                rounds_in_state_b: *rounds_in_state_b,
                round: *round,
            },
            State::D => State::D,
        }
    }

    /// The age to attach when gossiping this rumor: `Some(age)` in B,
    /// `Some(u8::MAX)` in C, `None` in D (D rumors are never transmitted).
    pub fn get_age(&self) -> (r: Option<Age>)
        ensures
            match r {
                Some(a) => spec_get_age(self@) == Some(a.value as int),
                None => spec_get_age(self@) is None,
            },
    {
        match self {
            State::B { age, .. } => Some(*age),
            State::C { .. } => Some(Age::max()),
            State::D => None,
        }
    }
}

/// Updating the entry at a position that holds the same identity keeps the
/// identities distinct.
proof fn lemma_update_keeps_distinct(pa: Seq<(Seq<u8>, int)>, j: int, p: (Seq<u8>, int))
    requires
        0 <= j < pa.len(),
        pa[j].0 == p.0,
        ages_distinct(pa),
    ensures
        ages_distinct(pa.update(j, p)),
{
}

/// Appending an identity that is not yet present keeps the identities
/// distinct.
proof fn lemma_push_new_keeps_distinct(pa: Seq<(Seq<u8>, int)>, p: (Seq<u8>, int))
    requires
        ages_distinct(pa),
        forall|k: int| 0 <= k < pa.len() ==> pa[k].0 != p.0,
    ensures
        ages_distinct(pa.push(p)),
{
    let pa2 = pa.push(p);
    assert forall|i: int, j: int| 0 <= i < j < pa2.len() implies pa2[i].0 != pa2[j].0 by {
        if j == pa.len() {
            assert(pa2[i] == pa[i]);
        } else {
            assert(pa2[i] == pa[i] && pa2[j] == pa[j]);
        }
    }
}

/// A positive between-count exhibits a reported age in the interval.
proof fn lemma_count_between_pos(ages: Seq<(Seq<u8>, int)>, lo: int, hi: int)
    requires
        count_between(ages, lo, hi) > 0,
    ensures
        exists|i: int| 0 <= i < ages.len() && lo <= ages[i].1 && ages[i].1 < hi,
    decreases ages.len(),
{
    if ages.len() > 0 {
        if lo <= ages.last().1 && ages.last().1 < hi {
            assert(ages[ages.len() - 1] == ages.last());
        } else {
            lemma_count_between_pos(ages.drop_last(), lo, hi);
            let i = choose|i: int|
                0 <= i < ages.drop_last().len() && lo <= ages.drop_last()[i].1
                    && ages.drop_last()[i].1 < hi;
            assert(ages[i] == ages.drop_last()[i]);
        }
    }
}

/// Advancing preserves the state invariant and never moves backward along
/// B -> C -> D.
pub proof fn lemma_next_round_preserves(s: StateV, max_b_age: int, max_c_rounds: int, max_rounds: int)
    requires
        1 <= max_b_age,
        1 <= max_c_rounds,
        1 <= max_rounds,
        state_inv(s, max_b_age, max_c_rounds, max_rounds),
    ensures
        state_inv(
            spec_next_round(s, max_b_age, max_c_rounds, max_rounds),
            max_b_age,
            max_c_rounds,
            max_rounds,
        ),
        phase(spec_next_round(s, max_b_age, max_c_rounds, max_rounds)) >= phase(s),
{
}

/// Bounded age: a B state whose age has reached `max_b_age` leaves B on the
/// very next advance.
pub proof fn lemma_full_age_forces_c(s: StateV, max_b_age: int, max_c_rounds: int, max_rounds: int)
    requires
        1 <= max_b_age,
        1 <= max_c_rounds,
        1 <= max_rounds,
        state_inv(s, max_b_age, max_c_rounds, max_rounds),
        s matches StateV::B { age, .. } && age >= max_b_age,
    ensures
        !(spec_next_round(s, max_b_age, max_c_rounds, max_rounds) is B),
        s->B_round + 1 < max_rounds ==> spec_next_round(s, max_b_age, max_c_rounds, max_rounds)
            is C,
{
}

/// An upper bound on how many more advances a state can survive before D.
pub open spec fn advances_left(s: StateV, max_c_rounds: int, max_rounds: int) -> int {
    match s {
        StateV::B { round, .. } => max_rounds - round,
        StateV::C { rounds_in_state_b, round } => {
            let c_left = max_c_rounds - round;
            let r_left = max_rounds - rounds_in_state_b - round;
            if c_left <= r_left {
                c_left
            } else {
                r_left
            }
        },
        StateV::D => 0,
    }
}

/// Every advance of a live state strictly lowers `advances_left`, which
/// starts no higher than `max_rounds`.
pub proof fn lemma_advance_progress(s: StateV, max_b_age: int, max_c_rounds: int, max_rounds: int)
    requires
        1 <= max_b_age,
        1 <= max_c_rounds,
        1 <= max_rounds,
        state_inv(s, max_b_age, max_c_rounds, max_rounds),
        !(s is D),
    ensures
        0 < advances_left(s, max_c_rounds, max_rounds) <= max_rounds,
        advances_left(
            spec_next_round(s, max_b_age, max_c_rounds, max_rounds),
            max_c_rounds,
            max_rounds,
        ) < advances_left(s, max_c_rounds, max_rounds),
{
}

/// The state after `k` advances.
pub open spec fn advanced_times(
    s: StateV,
    max_b_age: int,
    max_c_rounds: int,
    max_rounds: int,
    k: nat,
) -> StateV
    decreases k,
{
    if k == 0 {
        s
    } else {
        advanced_times(
            spec_next_round(s, max_b_age, max_c_rounds, max_rounds),
            max_b_age,
            max_c_rounds,
            max_rounds,
            (k - 1) as nat,
        )
    }
}

/// Advancing `k + 1` times is advancing `k` times and then once more.
pub proof fn lemma_advanced_times_snoc(
    s: StateV,
    max_b_age: int,
    max_c_rounds: int,
    max_rounds: int,
    k: nat,
)
    ensures
        advanced_times(s, max_b_age, max_c_rounds, max_rounds, k + 1) == spec_next_round(
            advanced_times(s, max_b_age, max_c_rounds, max_rounds, k),
            max_b_age,
            max_c_rounds,
            max_rounds,
        ),
    decreases k,
{
    let s2 = spec_next_round(s, max_b_age, max_c_rounds, max_rounds);
    assert(advanced_times(s, max_b_age, max_c_rounds, max_rounds, k + 1) == advanced_times(
        s2,
        max_b_age,
        max_c_rounds,
        max_rounds,
        k,
    ));
    if k == 0 {
        assert(advanced_times(s2, max_b_age, max_c_rounds, max_rounds, 0) == s2);
        assert(advanced_times(s, max_b_age, max_c_rounds, max_rounds, 0) == s);
    } else {
        lemma_advanced_times_snoc(s2, max_b_age, max_c_rounds, max_rounds, (k - 1) as nat);
        assert(advanced_times(s, max_b_age, max_c_rounds, max_rounds, k) == advanced_times(
            s2,
            max_b_age,
            max_c_rounds,
            max_rounds,
            (k - 1) as nat,
        ));
    }
}

/// Termination: a well-formed state reaches D within `advances_left` advances,
/// and hence within `max_rounds` of them; D is absorbing.
pub proof fn lemma_termination(
    s: StateV,
    max_b_age: int,
    max_c_rounds: int,
    max_rounds: int,
    k: nat,
)
    requires
        1 <= max_b_age,
        1 <= max_c_rounds,
        1 <= max_rounds,
        state_inv(s, max_b_age, max_c_rounds, max_rounds),
        k >= advances_left(s, max_c_rounds, max_rounds),
    ensures
        advanced_times(s, max_b_age, max_c_rounds, max_rounds, k) is D,
    decreases k,
{
    if s is D {
        if k > 0 {
            lemma_termination(s, max_b_age, max_c_rounds, max_rounds, (k - 1) as nat);
        }
    } else {
        lemma_advance_progress(s, max_b_age, max_c_rounds, max_rounds);
        lemma_next_round_preserves(s, max_b_age, max_c_rounds, max_rounds);
        let s2 = spec_next_round(s, max_b_age, max_c_rounds, max_rounds);
        lemma_termination(s2, max_b_age, max_c_rounds, max_rounds, (k - 1) as nat);
    }
}

} // verus!
