//! The gossiping engine: this player's view of all rumors and peers.
//!
//! The engine holds the player's identity, its peer set, and a map from
//! content hash to each rumor's progress: who is still oblivious of it, who
//! has been informed, and its state machine. It produces at most one outbound
//! push per call and integrates incoming gossip, optionally answering a push
//! with a response.

use vstd::prelude::*;

use crate::cutoffs::{b_age_cutoff, max_b_age_for, max_rounds_for, rounds_cutoff};
use crate::error::Error;
use crate::gossip::{
    clone_bytes, Content, Gossip, InformedPlayer, ObliviousPlayer, Player, Rumor, RumorV,
};
use crate::id::Id;
use crate::state::{
    advanced_times, ages_upsert, lemma_advanced_times_snoc, phase, spec_get_age,
    spec_new_from_player, spec_next_round, state_ages_wf, state_inv, Age, Round, State, StateV,
};

verus! {

broadcast use vstd::array::group_array_axioms, vstd::std_specs::vec::axiom_spec_len, vstd::seq_lib::group_to_multiset_ensures;

// ---------------------------------------------------------------------------
// Views
// ---------------------------------------------------------------------------

pub open spec fn players_view(s: Seq<Player>) -> Seq<Seq<u8>> {
    s.map_values(|p: Player| p@)
}

pub open spec fn informed_view(s: Seq<InformedPlayer>) -> Seq<Seq<u8>> {
    s.map_values(|p: InformedPlayer| p@)
}

pub open spec fn oblivious_view(s: Seq<ObliviousPlayer>) -> Seq<Seq<u8>> {
    s.map_values(|p: ObliviousPlayer| p@)
}

/// The mathematical value of a rumor's progress.
pub struct RumorProgressV {
    pub content: Seq<u8>,
    pub informed: Seq<Seq<u8>>,
    pub oblivious: Seq<Seq<u8>>,
    pub state: StateV,
    pub max_b_age: int,
    pub max_c_rounds: int,
    pub max_rounds: int,
}

/// Everything this player tracks about one rumor: its payload, the peers
/// believed informed and oblivious, its state machine, and the cutoffs fixed
/// at its birth from the peer-set size of that moment.
#[derive(Debug)]
pub struct RumorProgress {
    content: Content,
    informed_players: Vec<InformedPlayer>,
    oblivious_players: Vec<ObliviousPlayer>,
    state: State,
    max_b_age: Age,
    max_c_rounds: Round,
    max_rounds: Round,
}

impl View for RumorProgress {
    type V = RumorProgressV;

    closed spec fn view(&self) -> RumorProgressV {
        RumorProgressV {
            content: self.content@,
            informed: informed_view(self.informed_players@),
            oblivious: oblivious_view(self.oblivious_players@),
            state: self.state@,
            max_b_age: self.max_b_age.value as int,
            max_c_rounds: self.max_c_rounds.value as int,
            max_rounds: self.max_rounds.value as int,
        }
    }
}

/// No identity appears twice.
pub open spec fn ids_distinct(s: Seq<Seq<u8>>) -> bool {
    forall|i: int, j: int| 0 <= i < j < s.len() ==> s[i] != s[j]
}

/// The partition invariant and state invariant of one rumor: the informed
/// and oblivious lists are duplicate-free and disjoint, and the state
/// respects the cutoffs fixed at the rumor's birth.
pub open spec fn rp_wf(r: RumorProgressV) -> bool {
    &&& 1 <= r.max_b_age <= 255
    &&& 1 <= r.max_c_rounds <= 255
    &&& 1 <= r.max_rounds <= 255
    &&& state_inv(r.state, r.max_b_age, r.max_c_rounds, r.max_rounds)
    &&& state_ages_wf(r.state)
    &&& ids_distinct(r.informed)
    &&& ids_distinct(r.oblivious)
    &&& forall|i: int, j: int|
        0 <= i < r.informed.len() && 0 <= j < r.oblivious.len() ==> r.informed[i]
            != r.oblivious[j]
}

/// One step of a rumor's life: payload and cutoffs never change, informed
/// peers are never forgotten, no peer enters or leaves the partition, and the
/// state moves only forward along B -> C -> D.
pub open spec fn rumor_step_ok(a: RumorProgressV, b: RumorProgressV) -> bool {
    &&& b.content == a.content
    &&& b.max_b_age == a.max_b_age
    &&& b.max_c_rounds == a.max_c_rounds
    &&& b.max_rounds == a.max_rounds
    &&& a.informed.to_set() <= b.informed.to_set()
    &&& a.informed.to_set() + a.oblivious.to_set() == b.informed.to_set() + b.oblivious.to_set()
    &&& phase(b.state) >= phase(a.state)
}

/// The rumor map only grows, existing entries keep their key and position,
/// and each entry takes allowed steps only.
pub open spec fn rumors_monotone(
    a: Seq<(Seq<u8>, RumorProgressV)>,
    b: Seq<(Seq<u8>, RumorProgressV)>,
) -> bool {
    &&& a.len() <= b.len()
    &&& forall|i: int| 0 <= i < a.len() ==> (#[trigger] b[i]).0 == a[i].0
    &&& forall|i: int| 0 <= i < a.len() ==> rumor_step_ok(a[i].1, (#[trigger] b[i]).1)
}

pub proof fn lemma_rumor_step_refl(a: RumorProgressV)
    ensures
        rumor_step_ok(a, a),
{
}

pub proof fn lemma_rumor_step_trans(a: RumorProgressV, b: RumorProgressV, c: RumorProgressV)
    requires
        rumor_step_ok(a, b),
        rumor_step_ok(b, c),
    ensures
        rumor_step_ok(a, c),
{
}

pub proof fn lemma_rumors_monotone_trans(
    a: Seq<(Seq<u8>, RumorProgressV)>,
    b: Seq<(Seq<u8>, RumorProgressV)>,
    c: Seq<(Seq<u8>, RumorProgressV)>,
)
    requires
        rumors_monotone(a, b),
        rumors_monotone(b, c),
    ensures
        rumors_monotone(a, c),
{
    assert forall|i: int| 0 <= i < a.len() implies (#[trigger] c[i]).0 == a[i].0 by {
        assert(b[i].0 == a[i].0);
        assert(c[i].0 == b[i].0);
    }
    assert forall|i: int| 0 <= i < a.len() implies rumor_step_ok(a[i].1, (#[trigger] c[i]).1) by {
        lemma_rumor_step_trans(a[i].1, b[i].1, c[i].1);
    }
}

/// Whether some rumor is keyed by `key`.
pub open spec fn has_rumor_key(rs: Seq<(Seq<u8>, RumorProgressV)>, key: Seq<u8>) -> bool {
    exists|i: int| 0 <= i < rs.len() && (#[trigger] rs[i]).0 == key
}

/// Whether some rumor carries `content` and already counts `callee` among
/// the informed.
pub open spec fn rumor_informs(
    rs: Seq<(Seq<u8>, RumorProgressV)>,
    content: Seq<u8>,
    callee: Seq<u8>,
) -> bool {
    exists|i: int|
        0 <= i < rs.len() && (#[trigger] rs[i]).1.content == content && rs[i].1.informed.contains(
            callee,
        )
}

/// A monotone step never loses a key.
pub proof fn lemma_monotone_keeps_key(
    a: Seq<(Seq<u8>, RumorProgressV)>,
    b: Seq<(Seq<u8>, RumorProgressV)>,
    key: Seq<u8>,
)
    requires
        rumors_monotone(a, b),
        has_rumor_key(a, key),
    ensures
        has_rumor_key(b, key),
{
    let i = choose|i: int| 0 <= i < a.len() && (#[trigger] a[i]).0 == key;
    assert(b[i].0 == key);
}

/// A monotone step never forgets that a peer was informed of a rumor.
pub proof fn lemma_monotone_keeps_informs(
    a: Seq<(Seq<u8>, RumorProgressV)>,
    b: Seq<(Seq<u8>, RumorProgressV)>,
    content: Seq<u8>,
    callee: Seq<u8>,
)
    requires
        rumors_monotone(a, b),
        rumor_informs(a, content, callee),
    ensures
        rumor_informs(b, content, callee),
{
    let i = choose|i: int|
        0 <= i < a.len() && (#[trigger] a[i]).1.content == content && a[i].1.informed.contains(
            callee,
        );
    assert(rumor_step_ok(a[i].1, b[i].1));
    assert(a[i].1.informed.to_set().contains(callee));
    assert(b[i].1.informed.to_set().contains(callee));
    assert(b[i].1.content == content && b[i].1.informed.contains(callee));
}

/// The age a rumor entry reports: its B counter, the maximal age in C, and
/// the maximal age again when no age is attached.
pub open spec fn reported_age(e: RumorV) -> int {
    match spec_get_age(e.state) {
        Some(a) => a,
        None => u8::MAX as int,
    }
}

/// The record stored under `key`, if any.
pub open spec fn rumor_lookup(rs: Seq<(Seq<u8>, RumorProgressV)>, key: Seq<u8>) -> Option<
    RumorProgressV,
> {
    if has_rumor_key(rs, key) {
        Some(rs[choose|i: int| 0 <= i < rs.len() && rs[i].0 == key].1)
    } else {
        None
    }
}

/// The record a rumor first heard from `caller` gets: the caller informed,
/// every other current peer oblivious, the state adopted from the caller's
/// reported age, and cutoffs from the current peer count.
pub open spec fn spec_adopted_rumor(
    content: Seq<u8>,
    players: Seq<Seq<u8>>,
    caller: Seq<u8>,
    age: int,
) -> RumorProgressV {
    RumorProgressV {
        content,
        informed: seq![caller],
        oblivious: seq_remove_id(players, caller),
        state: spec_new_from_player(age, b_age_cutoff(players.len() as int)),
        max_b_age: b_age_cutoff(players.len() as int),
        max_c_rounds: rounds_cutoff(players.len() as int),
        max_rounds: rounds_cutoff(players.len() as int),
    }
}

/// Whether offering a rumor to `callee` emits an entry: the rumor is alive,
/// stays alive through its advance, and the callee is still oblivious.
pub open spec fn offer_sends(a: RumorProgressV, callee: Seq<u8>) -> bool {
    &&& !(a.state is D)
    &&& !(spec_next_round(a.state, a.max_b_age, a.max_c_rounds, a.max_rounds) is D)
    &&& a.oblivious.contains(callee)
}

/// Exactly what one offer does to a rumor's record: payload and cutoffs are
/// untouched, a live state advances exactly once (D is left alone), and the
/// callee moves from oblivious to informed precisely when an entry is
/// emitted.
pub open spec fn rumor_offer_effect(a: RumorProgressV, b: RumorProgressV, callee: Seq<u8>) -> bool {
    &&& b.content == a.content
    &&& b.max_b_age == a.max_b_age
    &&& b.max_c_rounds == a.max_c_rounds
    &&& b.max_rounds == a.max_rounds
    &&& (a.state is D ==> b == a)
    &&& (!(a.state is D) ==> b.state == spec_next_round(
        a.state,
        a.max_b_age,
        a.max_c_rounds,
        a.max_rounds,
    ))
    &&& (offer_sends(a, callee) ==> b.informed == a.informed.push(callee) && b.oblivious
        == seq_remove_id(a.oblivious, callee))
    &&& (!offer_sends(a, callee) ==> b.informed == a.informed && b.oblivious == a.oblivious)
}

/// Some record among the first `bound` of `prior` carries `e.content`, had
/// the callee oblivious, and now (in `now`) holds exactly `e.state`.
pub open spec fn entry_from_offer_upto(
    prior: Seq<(Seq<u8>, RumorProgressV)>,
    now: Seq<(Seq<u8>, RumorProgressV)>,
    e: RumorV,
    callee: Seq<u8>,
    bound: int,
) -> bool {
    exists|i: int|
        0 <= i < bound && i < prior.len() && i < now.len() && (#[trigger] prior[i]).1.content
            == e.content && prior[i].1.oblivious.contains(callee) && e.state == now[i].1.state
}

/// The entry was produced by offering some record of `prior` to a callee it
/// still counted oblivious, and carries that record's state as it stands in
/// `now`.
pub open spec fn entry_from_offer(
    prior: Seq<(Seq<u8>, RumorProgressV)>,
    now: Seq<(Seq<u8>, RumorProgressV)>,
    e: RumorV,
    callee: Seq<u8>,
) -> bool {
    entry_from_offer_upto(prior, now, e, callee, prior.len() as int)
}

/// `e` is the only entry of the inbound list carrying its content.
pub open spec fn unique_at(entries: Seq<RumorV>, j: int) -> bool {
    forall|j2: int|
        0 <= j2 < entries.len() && j2 != j ==> (#[trigger] entries[j2]).content
            != entries[j].content
}

/// Some entry of the inbound prefix of length `t` carries `key`.
pub open spec fn content_in_prefix(entries: Seq<RumorV>, t: int, key: Seq<u8>) -> bool {
    exists|j: int| 0 <= j < t && j < entries.len() && (#[trigger] entries[j]).content == key
}

/// The record under `e.content` in `now` is exactly the prior engine's
/// record with `e` integrated from `caller`.
pub open spec fn integration_recorded(
    prior: GossipingV,
    now: Seq<(Seq<u8>, RumorProgressV)>,
    e: RumorV,
    caller: Seq<u8>,
) -> bool {
    exists|i: int|
        0 <= i < now.len() && (#[trigger] now[i]).0 == e.content && spec_integrated(
            rumor_lookup(prior.rumors, e.content),
            e.content,
            reported_age(e),
            prior.players,
            caller,
            now[i].1,
        )
}

/// The record under `e.content` in `now` is the prior engine's record with
/// `e` integrated from `caller` — and, on a push, one offer back to the
/// caller applied after that.
pub open spec fn inbound_recorded(
    prior: GossipingV,
    now: Seq<(Seq<u8>, RumorProgressV)>,
    e: RumorV,
    caller: Seq<u8>,
    is_push: bool,
) -> bool {
    exists|i: int|
        0 <= i < now.len() && (#[trigger] now[i]).0 == e.content && exists|mid: RumorProgressV|
            spec_integrated(
                rumor_lookup(prior.rumors, e.content),
                e.content,
                reported_age(e),
                prior.players,
                caller,
                mid,
            ) && if is_push {
                rumor_offer_effect(mid, now[i].1, caller)
            } else {
                now[i].1 == mid
            }
}

/// The echoed state is exactly the prior engine's record for `e.content`
/// with `e` integrated from `caller`.
pub open spec fn echoes_integration(
    prior: GossipingV,
    e: RumorV,
    caller: Seq<u8>,
    echoed: StateV,
) -> bool {
    exists|mid: RumorProgressV|
        spec_integrated(
            rumor_lookup(prior.rumors, e.content),
            e.content,
            reported_age(e),
            prior.players,
            caller,
            mid,
        ) && echoed == mid.state
}

/// The entry carries exactly the state stored under its content.
pub open spec fn echoes_record(rs: Seq<(Seq<u8>, RumorProgressV)>, e: RumorV) -> bool {
    exists|i: int|
        0 <= i < rs.len() && (#[trigger] rs[i]).0 == e.content && e.state == rs[i].1.state
}

/// An entry of `out` at or beyond `lo` carries `content`.
pub open spec fn out_offers(out: Seq<Rumor>, lo: int, content: Seq<u8>) -> bool {
    exists|t: int| lo <= t < out.len() && (#[trigger] out[t])@.content == content
}

/// Every peer an offer leaves oblivious was oblivious before it.
pub open spec fn oblivious_within(b: RumorProgressV, a: RumorProgressV) -> bool {
    forall|y: Seq<u8>| #[trigger] b.oblivious.contains(y) ==> a.oblivious.contains(y)
}

pub proof fn lemma_offer_oblivious_within(a: RumorProgressV, b: RumorProgressV, callee: Seq<u8>)
    requires
        rumor_offer_effect(a, b, callee),
    ensures
        oblivious_within(b, a),
{
    if offer_sends(a, callee) {
        lemma_seq_remove_id_props(a.oblivious, callee);
        assert forall|y: Seq<u8>| #[trigger] b.oblivious.contains(y) implies a.oblivious.contains(
            y,
        ) by {
            assert(seq_remove_id(a.oblivious, callee).contains(y));
        }
    }
}

/// The record's state is the old state advanced between one and `max_k`
/// times under its own cutoffs.
pub open spec fn advanced_some_rounds(a: RumorProgressV, b: RumorProgressV, max_k: int) -> bool {
    exists|k: nat|
        1 <= k <= max_k && b.state == advanced_times(
            a.state,
            a.max_b_age,
            a.max_c_rounds,
            a.max_rounds,
            k,
        )
}

/// Some rumor is certain to go out whatever peer order the shuffle picks: it
/// is alive, survives one advance, and every current peer is still oblivious
/// of it.
pub open spec fn push_is_due(g: GossipingV) -> bool {
    exists|i: int|
        0 <= i < g.rumors.len() && {
            let a = (#[trigger] g.rumors[i]).1;
            &&& !(a.state is D)
            &&& !(spec_next_round(a.state, a.max_b_age, a.max_c_rounds, a.max_rounds) is D)
            &&& forall|y: Seq<u8>| #[trigger] g.players.contains(y) ==> a.oblivious.contains(y)
        }
}

/// Exactly what integrating one inbound rumor entry does to its record: a
/// rumor first heard is adopted from the caller's report; a known rumor in B
/// records the caller's reported age (the latest report wins) and nothing
/// else; a known rumor in C or D is untouched.
pub open spec fn spec_integrated(
    prior: Option<RumorProgressV>,
    content: Seq<u8>,
    age: int,
    players: Seq<Seq<u8>>,
    caller: Seq<u8>,
    rec: RumorProgressV,
) -> bool {
    match prior {
        None => rec == spec_adopted_rumor(content, players, caller, age),
        Some(a) => {
            &&& rec.content == a.content
            &&& rec.informed == a.informed
            &&& rec.oblivious == a.oblivious
            &&& rec.max_b_age == a.max_b_age
            &&& rec.max_c_rounds == a.max_c_rounds
            &&& rec.max_rounds == a.max_rounds
            &&& match a.state {
                StateV::B { round, age: our_age, player_ages } => rec.state == (StateV::B {
                    round,
                    age: our_age,
                    player_ages: ages_upsert(player_ages, caller, age),
                }),
                _ => rec.state == a.state,
            }
        },
    }
}

/// The mathematical value of the whole engine.
pub struct GossipingV {
    pub our_id: Seq<u8>,
    pub rumors: Seq<(Seq<u8>, RumorProgressV)>,
    pub players: Seq<Seq<u8>>,
}

/// An instance of Gossiping holds the state necessary to carry out gossiping
/// in a cluster.
#[derive(Debug)]
pub struct Gossiping {
    our_id: Id,
    rumors: Vec<(Vec<u8>, RumorProgress)>,
    players: Vec<Player>,
}

impl View for Gossiping {
    type V = GossipingV;

    closed spec fn view(&self) -> GossipingV {
        GossipingV {
            our_id: self.our_id@,
            rumors: self.rumors@.map_values(|e: (Vec<u8>, RumorProgress)| (e.0@, e.1@)),
            players: players_view(self.players@),
        }
    }
}

/// The engine's invariant: peers are distinct, rumor keys are distinct, and
/// each rumor is keyed by its own content and well formed.
pub open spec fn gossiping_wf(g: GossipingV) -> bool {
    &&& ids_distinct(g.players)
    &&& forall|i: int, j: int| 0 <= i < j < g.rumors.len() ==> g.rumors[i].0 != g.rumors[j].0
    &&& forall|i: int|
        0 <= i < g.rumors.len() ==> (#[trigger] g.rumors[i]).1.content == g.rumors[i].0 && rp_wf(
            g.rumors[i].1,
        )
}

/// A rumor freshly originated here: everyone else oblivious, state B at age
/// one, cutoffs from the current peer-set size.
pub open spec fn spec_new_rumor(content: Seq<u8>, players: Seq<Seq<u8>>) -> RumorProgressV {
    RumorProgressV {
        content,
        informed: Seq::empty(),
        oblivious: players,
        state: StateV::B { round: 0, age: 1, player_ages: Seq::empty() },
        max_b_age: b_age_cutoff(players.len() as int),
        max_c_rounds: rounds_cutoff(players.len() as int),
        max_rounds: rounds_cutoff(players.len() as int),
    }
}

/// Byte-for-byte equality of two byte vectors.
fn bytes_eq(a: &Vec<u8>, b: &Vec<u8>) -> (r: bool)
    ensures
        r == (a@ == b@),
{
    if a.len() != b.len() {
        proof {
            assert(a@ != b@);
        }
        return false;
    }
    let mut i: usize = 0;
    while i < a.len()
        invariant
            0 <= i <= a.len(),
            a@.len() == b@.len(),
            forall|k: int| 0 <= k < i ==> a@[k] == b@[k],
        decreases a.len() - i,
    {
        if a[i] != b[i] {
            assert(a@ != b@);
            return false;
        }
        i += 1;
    }
    proof {
        assert(a@ =~= b@);
    }
    true
}

impl Gossiping {
    /// The engine's invariant holds.
    pub open spec fn wf(&self) -> bool {
        gossiping_wf(self@)
    }

    /// A new engine for a player in a cluster, knowing the given peers.
    pub fn new(our_id: Id, players: Vec<Player>) -> (r: Gossiping)
        requires
            ids_distinct(players_view(players@)),
        ensures
            r.wf(),
            r@.our_id == our_id@,
            r@.players == players_view(players@),
            r@.rumors == Seq::<(Seq<u8>, RumorProgressV)>::empty(),
    {
        let r = Gossiping { our_id, rumors: Vec::new(), players };
        proof {
            assert(r@.rumors =~= Seq::<(Seq<u8>, RumorProgressV)>::empty());
        }
        r
    }

    /// Our identity (the bytes of our public key).
    pub fn our_id(&self) -> (r: Id)
        ensures
            r@ == self@.our_id,
    {
        self.our_id
    }

    /// All rumors we know about, keyed by content hash.
    pub fn rumors(&self) -> (r: &Vec<(Vec<u8>, RumorProgress)>)
        ensures
            r@.map_values(|e: (Vec<u8>, RumorProgress)| (e.0@, e.1@)) == self@.rumors,
    {
        &self.rumors
    }

    /// How many peers this engine currently knows.
    pub fn player_count(&self) -> (r: usize)
        ensures
            r == self@.players.len(),
    {
        self.players.len()
    }

    /// Add a peer. Ongoing rumors keep the partition fixed at their birth;
    /// adding is idempotent and always succeeds.
    #[verifier::loop_isolation(false)]
    pub fn add_player(&mut self, player_id: Id) -> (r: Result<(), Error>)
        requires
            old(self).wf(),
        ensures
            final(self).wf(),
            r is Ok,
            final(self)@.our_id == old(self)@.our_id,
            final(self)@.rumors == old(self)@.rumors,
            old(self)@.players.contains(player_id@) ==> final(self)@.players == old(self)@.players,
            !old(self)@.players.contains(player_id@) ==> final(self)@.players == old(self)@.players.push(player_id@),
    {
        let ghost pv = players_view(self.players@);
        let mut i: usize = 0;
        while i < self.players.len()
            invariant
                0 <= i <= self.players.len(),
                pv == players_view(self.players@),
                forall|k: int| 0 <= k < i ==> pv[k] != player_id@,
            decreases self.players.len() - i,
        {
            if self.players[i].id.same_as(&player_id) {
                proof {
                    assert(pv[i as int] == player_id@);
                    assert(pv.contains(player_id@));
                }
                return Ok(());
            }
            i += 1;
        }
        proof {
            if pv.contains(player_id@) {
                let k = choose|k: int| 0 <= k < pv.len() && pv[k] == player_id@;
                assert(false);
            }
        }
        self.players.push(Player { id: player_id });
        proof {
            assert(players_view(self.players@) =~= pv.push(player_id@));
        }
        Ok(())
    }

    /// Remove a peer. Ongoing rumors are unaffected.
    #[verifier::loop_isolation(false)]
    pub fn remove_player(&mut self, player_id: Id)
        requires
            old(self).wf(),
        ensures
            final(self).wf(),
            final(self)@.our_id == old(self)@.our_id,
            final(self)@.rumors == old(self)@.rumors,
            final(self)@.players == seq_remove_id(old(self)@.players, player_id@),
    {
        let ghost pv = players_view(self.players@);
        let mut kept: Vec<Player> = Vec::new();
        let mut i: usize = 0;
        while i < self.players.len()
            invariant
                0 <= i <= self.players.len(),
                pv == players_view(self.players@),
                players_view(kept@) == seq_remove_id(pv.take(i as int), player_id@),
            decreases self.players.len() - i,
        {
            proof {
                assert(pv.take(i as int + 1).drop_last() =~= pv.take(i as int));
                assert(pv.take(i as int + 1).last() == pv[i as int]);
            }
            if !self.players[i].id.same_as(&player_id) {
                let ghost kv = players_view(kept@);
                kept.push(self.players[i]);
                proof {
                    assert(players_view(kept@) =~= kv.push(pv[i as int]));
                }
            }
            i += 1;
        }
        proof {
            assert(pv.take(pv.len() as int) =~= pv);
        }
        self.players = kept;
        proof {
            lemma_seq_remove_id_props(pv, player_id@);
        }
    }

    /// The content hash keying a rumor. The payload bytes themselves serve
    /// as the hash.
    fn hash(&self, content: &Content) -> (r: Vec<u8>)
        ensures
            r@ == content@,
    {
        clone_bytes(&content.value)
    }

    /// Start disseminating new content. If the rumor is already in flight
    /// locally this is a no-op reported as `ProtocolMisuse`; otherwise it is
    /// recorded with everyone else oblivious and cutoffs computed from the
    /// current peer-set size.
    #[verifier::loop_isolation(false)]
    pub fn initiate_rumor(&mut self, content: Content) -> (r: Result<(), Error>)
        requires
            old(self).wf(),
        ensures
            final(self).wf(),
            final(self)@.our_id == old(self)@.our_id,
            final(self)@.players == old(self)@.players,
            rumors_monotone(old(self)@.rumors, final(self)@.rumors),
            (exists|i: int|
                0 <= i < old(self)@.rumors.len() && old(self)@.rumors[i].0 == content@) ==> (r
                == Err::<(), Error>(Error::ProtocolMisuse) && final(self)@ == old(self)@),
            !(exists|i: int|
                0 <= i < old(self)@.rumors.len() && old(self)@.rumors[i].0 == content@) ==> (
            r is Ok && final(self)@.rumors == old(self)@.rumors.push(
                (content@, spec_new_rumor(content@, old(self)@.players)),
            )),
    {
        let key = self.hash(&content);
        let ghost rv = self@.rumors;
        let mut i: usize = 0;
        while i < self.rumors.len()
            invariant
                0 <= i <= self.rumors.len(),
                rv == self@.rumors,
                forall|k: int| 0 <= k < i ==> rv[k].0 != content@,
                key@ == content@,
            decreases self.rumors.len() - i,
        {
            if bytes_eq(&self.rumors[i].0, &key) {
                proof {
                    assert(rv[i as int].0 == content@);
                }
                return Err(Error::ProtocolMisuse);
            }
            i += 1;
        }
        proof {
            if exists|k: int| 0 <= k < rv.len() && rv[k].0 == content@ {
                let k = choose|k: int| 0 <= k < rv.len() && rv[k].0 == content@;
                assert(false);
            }
        }
        let n = self.players.len();
        let mut oblivious: Vec<ObliviousPlayer> = Vec::new();
        let mut j: usize = 0;
        while j < self.players.len()
            invariant
                0 <= j <= self.players.len(),
                oblivious_view(oblivious@) == players_view(self.players@).take(j as int),
            decreases self.players.len() - j,
        {
            let ghost ov = oblivious_view(oblivious@);
            oblivious.push(ObliviousPlayer { id: self.players[j].id });
            proof {
                assert(oblivious_view(oblivious@) =~= ov.push(players_view(self.players@)[j as int]));
                assert(players_view(self.players@).take(j as int + 1) =~= players_view(
                    self.players@,
                ).take(j as int).push(players_view(self.players@)[j as int]));
            }
            j += 1;
        }
        proof {
            assert(players_view(self.players@).take(self.players@.len() as int) =~= players_view(
                self.players@,
            ));
        }
        let progress = RumorProgress {
            content,
            informed_players: Vec::new(),
            oblivious_players: oblivious,
            state: State::new(),
            max_b_age: Age::from(max_b_age_for(n)),
            max_c_rounds: Round::from(max_rounds_for(n)),
            max_rounds: Round::from(max_rounds_for(n)),
        };
        proof {
            assert(progress@.informed =~= Seq::<Seq<u8>>::empty());
            assert(progress@ == spec_new_rumor(content@, old(self)@.players));
        }
        self.rumors.push((key, progress));
        proof {
            assert(self@.rumors =~= rv.push((content@, spec_new_rumor(content@, old(self)@.players))));
        }
        Ok(())
    }
}

/// The identities of `s` with every occurrence of `x` removed, in order.
pub open spec fn seq_remove_id(s: Seq<Seq<u8>>, x: Seq<u8>) -> Seq<Seq<u8>>
    decreases s.len(),
{
    if s.len() == 0 {
        Seq::empty()
    } else {
        seq_remove_id(s.drop_last(), x) + if s.last() == x {
            Seq::empty()
        } else {
            seq![s.last()]
        }
    }
}

/// Removal keeps exactly the other identities, keeps them distinct, and
/// never grows the sequence.
pub proof fn lemma_seq_remove_id_props(s: Seq<Seq<u8>>, x: Seq<u8>)
    ensures
        forall|y: Seq<u8>| #[trigger] seq_remove_id(s, x).contains(y) <==> (s.contains(y) && y
            != x),
        ids_distinct(s) ==> ids_distinct(seq_remove_id(s, x)),
        seq_remove_id(s, x).len() <= s.len(),
    decreases s.len(),
{
    if s.len() == 0 {
        assert forall|y: Seq<u8>| #[trigger] seq_remove_id(s, x).contains(y) implies (s.contains(
            y,
        ) && y != x) by {}
        assert forall|y: Seq<u8>| (s.contains(y) && y != x) implies #[trigger] seq_remove_id(
            s,
            x,
        ).contains(y) by {
            let k = choose|k: int| 0 <= k < s.len() && s[k] == y;
        }
    } else {
        lemma_seq_remove_id_props(s.drop_last(), x);
        let pre = seq_remove_id(s.drop_last(), x);
        let whole = seq_remove_id(s, x);
        assert forall|y: Seq<u8>| #[trigger] whole.contains(y) implies (s.contains(y) && y != x)
            by {
            let k = choose|k: int| 0 <= k < whole.len() && whole[k] == y;
            if k < pre.len() {
                assert(pre.contains(y));
                let m = choose|m: int| 0 <= m < s.drop_last().len() && s.drop_last()[m] == y;
                assert(s[m] == y);
            } else {
                assert(y == s.last());
                assert(s[s.len() - 1] == y);
            }
        }
        assert forall|y: Seq<u8>| (s.contains(y) && y != x) implies #[trigger] whole.contains(y)
            by {
            let k = choose|k: int| 0 <= k < s.len() && s[k] == y;
            if k < s.len() - 1 {
                assert(s.drop_last()[k] == y);
                assert(s.drop_last().contains(y));
                assert(pre.contains(y));
                let m = choose|m: int| 0 <= m < pre.len() && pre[m] == y;
                assert(whole[m] == y);
            } else {
                assert(whole[whole.len() - 1] == y);
            }
        }
        if ids_distinct(s) {
            assert(ids_distinct(s.drop_last()));
            assert forall|i: int, j: int| 0 <= i < j < whole.len() implies whole[i] != whole[j]
                by {
                if j < pre.len() {
                } else if s.last() != x {
                    assert(whole[j] == s.last());
                    assert(pre.contains(whole[i]));
                    assert(s.drop_last().contains(whole[i]));
                    let m = choose|m: int|
                        0 <= m < s.drop_last().len() && s.drop_last()[m] == whole[i];
                    assert(s[m] == whole[i]);
                }
            }
        }
    }
}


/// Membership in a pushed identity sequence.
proof fn lemma_ids_push_contains(s: Seq<Seq<u8>>, x: Seq<u8>, y: Seq<u8>)
    ensures
        (s.push(x)).contains(y) <==> (s.contains(y) || y == x),
{
    if (s.push(x)).contains(y) {
        let k = choose|k: int| 0 <= k < s.push(x).len() && s.push(x)[k] == y;
        if k < s.len() {
            assert(s[k] == y);
        }
    }
    if s.contains(y) {
        let k = choose|k: int| 0 <= k < s.len() && s[k] == y;
        assert(s.push(x)[k] == y);
    }
    assert(s.push(x)[s.len() as int] == x);
}

impl RumorProgress {
    /// The rumor's payload.
    pub fn content(&self) -> (r: &Content)
        ensures
            r@ == self@.content,
    {
        &self.content
    }

    /// The rumor's state machine.
    pub fn state(&self) -> (r: &State)
        ensures
            r@ == self@.state,
    {
        &self.state
    }

    /// The peers we have sent this rumor to, or that sent it to us.
    pub fn informed_players(&self) -> (r: &Vec<InformedPlayer>)
        ensures
            informed_view(r@) == self@.informed,
    {
        &self.informed_players
    }

    /// The peers we believe have not seen this rumor yet.
    pub fn oblivious_players(&self) -> (r: &Vec<ObliviousPlayer>)
        ensures
            oblivious_view(r@) == self@.oblivious,
    {
        &self.oblivious_players
    }

    /// The age cutoff fixed at this rumor's birth.
    pub fn max_b_age(&self) -> (r: Age)
        ensures
            r.value as int == self@.max_b_age,
    {
        self.max_b_age
    }

    /// Record that `player_id` sent us this rumor carrying `age`; meaningful
    /// only while the state is B.
    fn receive_from(&mut self, player_id: Id, age: Age)
        requires
            rp_wf(old(self)@),
        ensures
            rp_wf(final(self)@),
            rumor_step_ok(old(self)@, final(self)@),
            final(self)@.content == old(self)@.content,
            final(self)@.informed == old(self)@.informed,
            final(self)@.oblivious == old(self)@.oblivious,
            final(self)@.max_b_age == old(self)@.max_b_age,
            final(self)@.max_c_rounds == old(self)@.max_c_rounds,
            final(self)@.max_rounds == old(self)@.max_rounds,
            phase(final(self)@.state) == phase(old(self)@.state),
            match old(self)@.state {
                StateV::B { round, age: our_age, player_ages } => final(self)@.state == (StateV::B {
                    round,
                    age: our_age,
                    player_ages: ages_upsert(player_ages, player_id@, age.value as int),
                }),
                _ => final(self)@.state == old(self)@.state,
            },
    {
        self.state.receive_rumor(player_id, age);
        proof {
            match old(self)@.state {
                StateV::B { round, age: our_age, player_ages } => {
                    let pa2 = self@.state->B_player_ages;
                    if exists|j: int|
                        0 <= j < player_ages.len() && (#[trigger] player_ages[j]).0 == player_id@
                            && (forall|k: int| 0 <= k < j ==> player_ages[k].0 != player_id@)
                            && pa2 == player_ages.update(j, (player_id@, age.value as int)) {
                        let j = choose|j: int|
                            0 <= j < player_ages.len() && (#[trigger] player_ages[j]).0
                                == player_id@ && (forall|k: int|
                                0 <= k < j ==> player_ages[k].0 != player_id@) && pa2
                                == player_ages.update(j, (player_id@, age.value as int));
                        crate::state::lemma_upsert_is_update(
                            player_ages,
                            j,
                            player_id@,
                            age.value as int,
                        );
                    } else {
                        crate::state::lemma_upsert_is_push(
                            player_ages,
                            player_id@,
                            age.value as int,
                        );
                    }
                },
                _ => {},
            }
        }
    }

    /// Advance this rumor by one round and, if it is still alive and
    /// `callee` is still oblivious of it, emit an entry for it and move
    /// `callee` from oblivious to informed. A rumor already in D is left
    /// untouched.
    #[verifier::loop_isolation(false)]
    fn offer_to(&mut self, callee: &Id) -> (r: Option<Rumor>)
        requires
            rp_wf(old(self)@),
        ensures
            rp_wf(final(self)@),
            rumor_step_ok(old(self)@, final(self)@),
            rumor_offer_effect(old(self)@, final(self)@, callee@),
            r is Some <==> offer_sends(old(self)@, callee@),
            match r {
                Some(rum) => !(rum@.state is D) && rum@.content == old(self)@.content && rum@.state
                    == final(self)@.state,
                None => true,
            },
    {
        match &self.state {
            State::D => { return None; },
            _ => {},
        }
        let ns = self.state.advanced(self.max_b_age, self.max_c_rounds, self.max_rounds);
        proof {
            crate::state::lemma_next_round_preserves(
                self@.state,
                self@.max_b_age,
                self@.max_c_rounds,
                self@.max_rounds,
            );
        }
        self.state = ns;
        match &self.state {
            State::D => { return None; },
            _ => {},
        }
        let ghost ov = oblivious_view(self.oblivious_players@);
        let ghost iv = informed_view(self.informed_players@);
        let mut i: usize = 0;
        let mut found: bool = false;
        while i < self.oblivious_players.len() && !found
            invariant
                0 <= i <= self.oblivious_players.len(),
                found ==> i < self.oblivious_players.len() && ov[i as int] == callee@,
                !found ==> forall|k: int| 0 <= k < i ==> ov[k] != callee@,
            decreases self.oblivious_players.len() - i, if found { 0int } else { 1int },
        {
            if self.oblivious_players[i].id.same_as(callee) {
                found = true;
            } else {
                i += 1;
            }
        }
        if !found {
            proof {
                if ov.contains(callee@) {
                    let k = choose|k: int| 0 <= k < ov.len() && ov[k] == callee@;
                    assert(false);
                }
            }
            return None;
        }
        proof {
            assert(ov[i as int] == callee@);
            assert(ov.contains(callee@));
        }
        let mut kept: Vec<ObliviousPlayer> = Vec::new();
        let mut j: usize = 0;
        while j < self.oblivious_players.len()
            invariant
                0 <= j <= self.oblivious_players.len(),
                ov == oblivious_view(self.oblivious_players@),
                oblivious_view(kept@) == seq_remove_id(ov.take(j as int), callee@),
            decreases self.oblivious_players.len() - j,
        {
            proof {
                assert(ov.take(j as int + 1).drop_last() =~= ov.take(j as int));
                assert(ov.take(j as int + 1).last() == ov[j as int]);
            }
            if !self.oblivious_players[j].id.same_as(callee) {
                let ghost kv = oblivious_view(kept@);
                let keep = self.oblivious_players[j];
                kept.push(keep);
                proof {
                    assert(oblivious_view(kept@) =~= kv.push(ov[j as int]));
                }
            }
            j += 1;
        }
        proof {
            assert(ov.take(ov.len() as int) =~= ov);
            lemma_seq_remove_id_props(ov, callee@);
        }
        self.oblivious_players = kept;
        let ghost iv0 = iv;
        self.informed_players.push(InformedPlayer { id: *callee });
        proof {
            assert(informed_view(self.informed_players@) =~= iv0.push(callee@));
            // The callee was oblivious, hence not informed; the push keeps
            // the informed list duplicate-free.
            assert forall|a: int, b: int|
                0 <= a < b < informed_view(self.informed_players@).len() implies informed_view(
                self.informed_players@,
            )[a] != informed_view(self.informed_players@)[b] by {
                if b == iv0.len() {
                    assert(informed_view(self.informed_players@)[a] == iv0[a]);
                }
            }
            // Disjointness: everything still oblivious differs from every
            // informed peer, including the moved callee.
            assert forall|a: int, b: int|
                0 <= a < informed_view(self.informed_players@).len() && 0 <= b < oblivious_view(
                    self.oblivious_players@,
                ).len() implies informed_view(self.informed_players@)[a] != oblivious_view(
                self.oblivious_players@,
            )[b] by {
                let y = oblivious_view(self.oblivious_players@)[b];
                assert(oblivious_view(self.oblivious_players@).contains(y));
                assert(ov.contains(y) && y != callee@);
                let m = choose|m: int| 0 <= m < ov.len() && ov[m] == y;
                if a < iv0.len() {
                    assert(informed_view(self.informed_players@)[a] == iv0[a]);
                }
            }
            // The partition as a set is unchanged: the callee merely crossed
            // from oblivious to informed.
            assert forall|y: Seq<u8>|
                #[trigger] (final(self)@.informed.to_set() + final(self)@.oblivious.to_set()).contains(y)
                    implies (iv0.to_set() + ov.to_set()).contains(y) by {
                lemma_ids_push_contains(iv0, callee@, y);
            }
            assert forall|y: Seq<u8>|
                #[trigger] (iv0.to_set() + ov.to_set()).contains(y) implies (final(self)@.informed.to_set() + final(self)@.oblivious.to_set()).contains(y) by {
                lemma_ids_push_contains(iv0, callee@, y);
            }
            assert(final(self)@.informed.to_set() + final(self)@.oblivious.to_set() =~= iv0.to_set()
                + ov.to_set());
            assert forall|y: Seq<u8>| #[trigger] iv0.to_set().contains(y) implies final(self)@.informed.to_set().contains(y) by {
                lemma_ids_push_contains(iv0, callee@, y);
            }
        }
        Some(Rumor { content: self.content.duplicate(), state: self.state.duplicate() })
    }
}

/// Relies on rand's SliceRandom::shuffle (seeded from the thread-local
/// generator): it permutes the slice in place, so the same players come back
/// in some order.
#[verifier::external_body]
fn shuffled_players(players: &Vec<Player>) -> (r: Vec<Player>)
    ensures
        r@.to_multiset() == players@.to_multiset(),
        r@.len() == players@.len(),
{
    let mut v: Vec<Player> = players.clone();
    let mut rng = rand::rng();
    rand::seq::SliceRandom::shuffle(v.as_mut_slice(), &mut rng);
    v
}



/// Updating one entry in an allowed way is a monotone step of the map.
proof fn lemma_monotone_update(
    a: Seq<(Seq<u8>, RumorProgressV)>,
    idx: int,
    next: RumorProgressV,
)
    requires
        0 <= idx < a.len(),
        rumor_step_ok(a[idx].1, next),
    ensures
        rumors_monotone(a, a.update(idx, (a[idx].0, next))),
{
    let b = a.update(idx, (a[idx].0, next));
    assert forall|i: int| 0 <= i < a.len() implies rumor_step_ok(a[i].1, (#[trigger] b[i]).1) by {
        if i != idx {
            lemma_rumor_step_refl(a[i].1);
        }
    }
}

impl Gossiping {
    /// The position of `key` among the rumors, if it is known.
    #[verifier::loop_isolation(false)]
    fn find_rumor(&self, key: &Vec<u8>) -> (r: Option<usize>)
        ensures
            match r {
                Some(i) => i < self@.rumors.len() && self@.rumors[i as int].0 == key@,
                None => forall|k: int| 0 <= k < self@.rumors.len() ==> self@.rumors[k].0 != key@,
            },
    {
        let mut i: usize = 0;
        while i < self.rumors.len()
            invariant
                0 <= i <= self.rumors.len(),
                forall|k: int| 0 <= k < i ==> self@.rumors[k].0 != key@,
            decreases self.rumors.len() - i,
        {
            if bytes_eq(&self.rumors[i].0, key) {
                return Some(i);
            }
            i += 1;
        }
        None
    }

    /// Integrate incoming rumors: update the state of those we know, record
    /// those we do not, then (for a push) build the response. The rumor map
    /// only grows, informed sets only grow, and states only move forward.
    #[verifier::loop_isolation(false)]
    pub fn receive_gossip(&mut self, gossip: &Gossip, is_push: bool) -> (r: Option<Gossip>)
        requires
            old(self).wf(),
        ensures
            final(self).wf(),
            final(self)@.our_id == old(self)@.our_id,
            final(self)@.players == old(self)@.players,
            rumors_monotone(old(self)@.rumors, final(self)@.rumors),
            !is_push ==> r is None,
            is_push && gossip@.rumors.len() > 0 ==> r is Some,
            forall|j: int|
                0 <= j < gossip@.rumors.len() ==> has_rumor_key(
                    final(self)@.rumors,
                    (#[trigger] gossip@.rumors[j]).content,
                ),
            forall|j: int|
                0 <= j < gossip@.rumors.len() && !has_rumor_key(
                    old(self)@.rumors,
                    (#[trigger] gossip@.rumors[j]).content,
                ) ==> rumor_informs(
                    final(self)@.rumors,
                    gossip@.rumors[j].content,
                    gossip@.caller,
                ),
            forall|j: int|
                0 <= j < gossip@.rumors.len() && unique_at(gossip@.rumors, j) ==> inbound_recorded(
                    old(self)@,
                    final(self)@.rumors,
                    #[trigger] gossip@.rumors[j],
                    gossip@.caller,
                    is_push,
                ),
            match r {
                Some(resp) => is_push && resp@.caller == old(self)@.our_id && resp@.callee
                    == gossip@.caller && resp@.rumors.len() > 0 && resp@.rumors.len()
                    >= gossip@.rumors.len() && (forall|j: int|
                    0 <= j < gossip@.rumors.len() ==> (#[trigger] resp@.rumors[j]).content
                        == gossip@.rumors[j].content) && (forall|j: int|
                    0 <= j < gossip@.rumors.len() && unique_at(gossip@.rumors, j)
                        ==> echoes_integration(
                        old(self)@,
                        #[trigger] gossip@.rumors[j],
                        gossip@.caller,
                        resp@.rumors[j].state,
                    )) && (forall|i: int|
                    0 <= i < resp@.rumors.len() ==> (!((#[trigger] resp@.rumors[i]).state is D)
                        || exists|j: int|
                        0 <= j < gossip@.rumors.len() && (#[trigger] gossip@.rumors[j]).content
                            == resp@.rumors[i].content)) && (forall|i: int|
                    0 <= i < resp@.rumors.len() ==> has_rumor_key(
                        final(self)@.rumors,
                        (#[trigger] resp@.rumors[i]).content,
                    )),
                None => true,
            },
    {
        let ghost g0 = self@;
        let n = self.player_count();
        let max_b_age = Age::from(max_b_age_for(n));
        let max_rounds = Round::from(max_rounds_for(n));
        // The peers oblivious of a rumor first heard from this caller:
        // everyone we know except the caller.
        let mut obl_snapshot: Vec<ObliviousPlayer> = Vec::new();
        let ghost pv = players_view(self.players@);
        let mut t: usize = 0;
        while t < self.players.len()
            invariant
                0 <= t <= self.players.len(),
                pv == players_view(self.players@),
                oblivious_view(obl_snapshot@) == seq_remove_id(pv.take(t as int), gossip.caller.id@),
            decreases self.players.len() - t,
        {
            proof {
                assert(pv.take(t as int + 1).drop_last() =~= pv.take(t as int));
                assert(pv.take(t as int + 1).last() == pv[t as int]);
            }
            if !self.players[t].id.same_as(&gossip.caller.id) {
                let ghost kv = oblivious_view(obl_snapshot@);
                let keep = self.players[t];
                obl_snapshot.push(ObliviousPlayer { id: keep.id });
                proof {
                    assert(oblivious_view(obl_snapshot@) =~= kv.push(pv[t as int]));
                }
            }
            t += 1;
        }
        proof {
            assert(pv.take(pv.len() as int) =~= pv);
            lemma_seq_remove_id_props(pv, gossip.caller.id@);
        }
        // Integration: the latest report per caller wins for known rumors;
        // unknown rumors are recorded as first heard from the caller.
        let mut t2: usize = 0;
        while t2 < gossip.rumors.len()
            invariant
                0 <= t2 <= gossip.rumors.len(),
                self.wf(),
                self@.our_id == g0.our_id,
                self@.players == g0.players,
                rumors_monotone(g0.rumors, self@.rumors),
                oblivious_view(obl_snapshot@) == seq_remove_id(g0.players, gossip.caller.id@),
                forall|j: int|
                    0 <= j < t2 ==> has_rumor_key(
                        self@.rumors,
                        (#[trigger] gossip@.rumors[j]).content,
                    ),
                forall|k: Seq<u8>|
                    #[trigger] has_rumor_key(self@.rumors, k) && !has_rumor_key(g0.rumors, k)
                        ==> rumor_informs(self@.rumors, k, gossip@.caller),
                forall|k: Seq<u8>|
                    #[trigger] has_rumor_key(self@.rumors, k) && !has_rumor_key(g0.rumors, k)
                        ==> content_in_prefix(gossip@.rumors, t2 as int, k),
                forall|i: int|
                    0 <= i < g0.rumors.len() && !content_in_prefix(
                        gossip@.rumors,
                        t2 as int,
                        (#[trigger] g0.rumors[i]).0,
                    ) ==> self@.rumors[i].1 == g0.rumors[i].1,
                forall|j: int|
                    0 <= j < t2 && unique_at(gossip@.rumors, j) ==> integration_recorded(
                        g0,
                        self@.rumors,
                        #[trigger] gossip@.rumors[j],
                        gossip@.caller,
                    ),
            decreases gossip.rumors.len() - t2,
        {
            let ghost gmid = self@;
            let key = self.hash(&gossip.rumors[t2].content);
            let peer_age = match gossip.rumors[t2].state.get_age() {
                Some(a) => a,
                None => Age::max(),
            };
            match self.find_rumor(&key) {
                Some(idx) => {
                    let ghost prev = self@.rumors[idx as int].1;
                    self.rumors[idx].1.receive_from(gossip.caller.id, peer_age);
                    proof {
                        assert(self@.rumors =~= gmid.rumors.update(
                            idx as int,
                            (gmid.rumors[idx as int].0, self@.rumors[idx as int].1),
                        ));
                        lemma_monotone_update(gmid.rumors, idx as int, self@.rumors[idx as int].1);
                        lemma_rumors_monotone_trans(g0.rumors, gmid.rumors, self@.rumors);
                        assert forall|a: int, b: int|
                            0 <= a < b < self@.rumors.len() implies self@.rumors[a].0
                            != self@.rumors[b].0 by {
                            assert(self@.rumors[a].0 == gmid.rumors[a].0);
                            assert(self@.rumors[b].0 == gmid.rumors[b].0);
                        }
                        assert forall|j: int| 0 <= j < t2 + 1 implies has_rumor_key(
                            self@.rumors,
                            (#[trigger] gossip@.rumors[j]).content,
                        ) by {
                            if j < t2 {
                                lemma_monotone_keeps_key(
                                    gmid.rumors,
                                    self@.rumors,
                                    gossip@.rumors[j].content,
                                );
                            } else {
                                assert(self@.rumors[idx as int].0 == gossip@.rumors[j].content);
                            }
                        }
                        assert forall|k: Seq<u8>|
                            #[trigger] has_rumor_key(self@.rumors, k) && !has_rumor_key(
                                g0.rumors,
                                k,
                            ) implies rumor_informs(self@.rumors, k, gossip@.caller) by {
                            let w = choose|w: int|
                                0 <= w < self@.rumors.len() && (#[trigger] self@.rumors[w]).0
                                    == k;
                            assert(gmid.rumors[w].0 == k);
                            assert(has_rumor_key(gmid.rumors, k));
                            lemma_monotone_keeps_informs(
                                gmid.rumors,
                                self@.rumors,
                                k,
                                gossip@.caller,
                            );
                        }
                        // The update keeps every key, so provenance of new
                        // keys and untouched records carry over.
                        assert forall|k: Seq<u8>|
                            #[trigger] has_rumor_key(self@.rumors, k) && !has_rumor_key(
                                g0.rumors,
                                k,
                            ) implies content_in_prefix(gossip@.rumors, t2 as int + 1, k) by {
                            let w = choose|w: int|
                                0 <= w < self@.rumors.len() && (#[trigger] self@.rumors[w]).0
                                    == k;
                            assert(gmid.rumors[w].0 == k);
                            assert(has_rumor_key(gmid.rumors, k));
                            assert(content_in_prefix(gossip@.rumors, t2 as int, k));
                        }
                        assert forall|i: int|
                            0 <= i < g0.rumors.len() && !content_in_prefix(
                                gossip@.rumors,
                                t2 as int + 1,
                                (#[trigger] g0.rumors[i]).0,
                            ) implies self@.rumors[i].1 == g0.rumors[i].1 by {
                            assert(gossip@.rumors[t2 as int].content != g0.rumors[i].0);
                            assert(g0.rumors[i].0 == gmid.rumors[i].0);
                            assert(i != idx);
                        }
                        // A uniquely-occurring known rumor: its record was
                        // still the prior one, and the update is exactly the
                        // integration.
                        assert forall|j: int|
                            0 <= j < t2 + 1 && unique_at(gossip@.rumors, j)
                            implies integration_recorded(
                            g0,
                            self@.rumors,
                            #[trigger] gossip@.rumors[j],
                            gossip@.caller,
                        ) by {
                            if j < t2 {
                                let i = choose|i: int|
                                    0 <= i < gmid.rumors.len() && (#[trigger] gmid.rumors[i]).0
                                        == gossip@.rumors[j].content && spec_integrated(
                                        rumor_lookup(g0.rumors, gossip@.rumors[j].content),
                                        gossip@.rumors[j].content,
                                        reported_age(gossip@.rumors[j]),
                                        g0.players,
                                        gossip@.caller,
                                        gmid.rumors[i].1,
                                    );
                                assert(gossip@.rumors[t2 as int].content != gossip@.rumors[
                                    j].content);
                                assert(gmid.rumors[idx as int].0 == gossip@.rumors[t2 as int].content);
                                assert(i != idx);
                                assert(self@.rumors[i].1 == gmid.rumors[i].1);
                            } else {
                                let e = gossip@.rumors[t2 as int];
                                if has_rumor_key(g0.rumors, e.content) {
                                    let i0 = choose|i0: int|
                                        0 <= i0 < g0.rumors.len() && (#[trigger] g0.rumors[i0]).0
                                            == e.content;
                                    assert(gmid.rumors[i0].0 == e.content);
                                    assert(i0 == idx);
                                    assert(!content_in_prefix(gossip@.rumors, t2 as int, e.content));
                                    assert(gmid.rumors[idx as int].1 == g0.rumors[idx as int].1);
                                    assert(rumor_lookup(g0.rumors, e.content) == Some(
                                        g0.rumors[idx as int].1,
                                    ));
                                    assert(reported_age(e) == peer_age.value as int);
                                    assert(spec_integrated(
                                        Some(g0.rumors[idx as int].1),
                                        e.content,
                                        reported_age(e),
                                        g0.players,
                                        gossip@.caller,
                                        self@.rumors[idx as int].1,
                                    ));
                                } else {
                                    assert(has_rumor_key(gmid.rumors, e.content));
                                    assert(content_in_prefix(gossip@.rumors, t2 as int, e.content));
                                    let j2 = choose|j2: int|
                                        0 <= j2 < t2 && j2 < gossip@.rumors.len() && (
                                        #[trigger] gossip@.rumors[j2]).content == e.content;
                                    assert(false);
                                }
                            }
                        }
                    }
                },
                None => {
                    let oblivious = clone_oblivious(&obl_snapshot);
                    let mut informed: Vec<InformedPlayer> = Vec::new();
                    informed.push(InformedPlayer { id: gossip.caller.id });
                    let progress = RumorProgress {
                        content: gossip.rumors[t2].content.duplicate(),
                        informed_players: informed,
                        oblivious_players: oblivious,
                        state: State::new_from_player(peer_age, max_b_age),
                        max_b_age,
                        max_c_rounds: max_rounds,
                        max_rounds,
                    };
                    proof {
                        assert(informed_view(progress.informed_players@) =~= Seq::<
                            Seq<u8>,
                        >::empty().push(gossip.caller.id@));
                        let ov2 = progress@.oblivious;
                        assert(ov2 == seq_remove_id(g0.players, gossip.caller.id@));
                        assert forall|a: int, b: int|
                            0 <= a < progress@.informed.len() && 0 <= b < ov2.len()
                            implies progress@.informed[a] != ov2[b] by {
                            assert(ov2[b] == ov2[b]);
                            assert(ov2.contains(ov2[b]));
                            assert(ov2[b] != gossip.caller.id@);
                            assert(progress@.informed[a] == gossip.caller.id@);
                        }
                        assert(ids_distinct(ov2));
                        assert(state_inv(
                            progress@.state,
                            progress@.max_b_age,
                            progress@.max_c_rounds,
                            progress@.max_rounds,
                        ));
                        assert(rp_wf(progress@));
                    }
                    self.rumors.push((key, progress));
                    proof {
                        assert(self@.rumors =~= gmid.rumors.push((key@, progress@)));
                        assert(rumors_monotone(gmid.rumors, self@.rumors));
                        lemma_rumors_monotone_trans(g0.rumors, gmid.rumors, self@.rumors);
                        assert forall|j: int| 0 <= j < t2 + 1 implies has_rumor_key(
                            self@.rumors,
                            (#[trigger] gossip@.rumors[j]).content,
                        ) by {
                            if j < t2 {
                                lemma_monotone_keeps_key(
                                    gmid.rumors,
                                    self@.rumors,
                                    gossip@.rumors[j].content,
                                );
                            } else {
                                assert(self@.rumors[gmid.rumors.len() as int].0 == gossip@.rumors[
                                    j].content);
                            }
                        }
                        assert(progress@.informed[0] == gossip.caller.id@);
                        assert(progress@.informed.contains(gossip.caller.id@));
                        assert(self@.rumors[gmid.rumors.len() as int].1 == progress@);
                        // The freshly recorded rumor is exactly the adopted
                        // record.
                        assert(progress@.informed =~= seq![gossip.caller.id@]);
                        assert(reported_age(gossip@.rumors[t2 as int]) == peer_age.value as int);
                        assert(g0.players.len() == n);
                        assert(progress@ == spec_adopted_rumor(
                            gossip@.rumors[t2 as int].content,
                            g0.players,
                            gossip@.caller,
                            reported_age(gossip@.rumors[t2 as int]),
                        ));
                        assert forall|k: Seq<u8>|
                            #[trigger] has_rumor_key(self@.rumors, k) && !has_rumor_key(
                                g0.rumors,
                                k,
                            ) implies rumor_informs(self@.rumors, k, gossip@.caller) by {
                            let w = choose|w: int|
                                0 <= w < self@.rumors.len() && (#[trigger] self@.rumors[w]).0
                                    == k;
                            if w < gmid.rumors.len() {
                                assert(gmid.rumors[w].0 == k);
                                assert(has_rumor_key(gmid.rumors, k));
                                lemma_monotone_keeps_informs(
                                    gmid.rumors,
                                    self@.rumors,
                                    k,
                                    gossip@.caller,
                                );
                            } else {
                                assert(self@.rumors[w].1.content == k);
                            }
                        }
                        assert forall|k: Seq<u8>|
                            #[trigger] has_rumor_key(self@.rumors, k) && !has_rumor_key(
                                g0.rumors,
                                k,
                            ) implies content_in_prefix(gossip@.rumors, t2 as int + 1, k) by {
                            let w = choose|w: int|
                                0 <= w < self@.rumors.len() && (#[trigger] self@.rumors[w]).0
                                    == k;
                            if w < gmid.rumors.len() {
                                assert(gmid.rumors[w].0 == k);
                                assert(has_rumor_key(gmid.rumors, k));
                                assert(content_in_prefix(gossip@.rumors, t2 as int, k));
                            } else {
                                assert(gossip@.rumors[t2 as int].content == k);
                            }
                        }
                        assert forall|i: int|
                            0 <= i < g0.rumors.len() && !content_in_prefix(
                                gossip@.rumors,
                                t2 as int + 1,
                                (#[trigger] g0.rumors[i]).0,
                            ) implies self@.rumors[i].1 == g0.rumors[i].1 by {
                            assert(self@.rumors[i].1 == gmid.rumors[i].1);
                        }
                        assert forall|j: int|
                            0 <= j < t2 + 1 && unique_at(gossip@.rumors, j)
                            implies integration_recorded(
                            g0,
                            self@.rumors,
                            #[trigger] gossip@.rumors[j],
                            gossip@.caller,
                        ) by {
                            if j < t2 {
                                let i = choose|i: int|
                                    0 <= i < gmid.rumors.len() && (#[trigger] gmid.rumors[i]).0
                                        == gossip@.rumors[j].content && spec_integrated(
                                        rumor_lookup(g0.rumors, gossip@.rumors[j].content),
                                        gossip@.rumors[j].content,
                                        reported_age(gossip@.rumors[j]),
                                        g0.players,
                                        gossip@.caller,
                                        gmid.rumors[i].1,
                                    );
                                assert(self@.rumors[i].1 == gmid.rumors[i].1);
                                assert(self@.rumors[i].0 == gmid.rumors[i].0);
                            } else {
                                let e = gossip@.rumors[t2 as int];
                                if has_rumor_key(g0.rumors, e.content) {
                                    let i0 = choose|i0: int|
                                        0 <= i0 < g0.rumors.len() && (#[trigger] g0.rumors[i0]).0
                                            == e.content;
                                    assert(gmid.rumors[i0].0 == e.content);
                                    assert(has_rumor_key(gmid.rumors, e.content));
                                    assert(false);
                                }
                                assert(rumor_lookup(g0.rumors, e.content) is None);
                                assert(self@.rumors[gmid.rumors.len() as int].0 == e.content);
                                assert(spec_integrated(
                                    rumor_lookup(g0.rumors, e.content),
                                    e.content,
                                    reported_age(e),
                                    g0.players,
                                    gossip@.caller,
                                    self@.rumors[gmid.rumors.len() as int].1,
                                ));
                            }
                        }
                    }
                },
            }
            t2 += 1;
        }
        let ghost gint = self@;
        let r = self.try_get_response(gossip, is_push);
        proof {
            assert forall|j: int| 0 <= j < gossip@.rumors.len() implies has_rumor_key(
                self@.rumors,
                (#[trigger] gossip@.rumors[j]).content,
            ) by {
                lemma_monotone_keeps_key(gint.rumors, self@.rumors, gossip@.rumors[j].content);
            }
            assert forall|j: int|
                0 <= j < gossip@.rumors.len() && !has_rumor_key(
                    g0.rumors,
                    (#[trigger] gossip@.rumors[j]).content,
                ) implies rumor_informs(
                self@.rumors,
                gossip@.rumors[j].content,
                gossip@.caller,
            ) by {
                assert(has_rumor_key(gint.rumors, gossip@.rumors[j].content));
                assert(rumor_informs(gint.rumors, gossip@.rumors[j].content, gossip@.caller));
                lemma_monotone_keeps_informs(
                    gint.rumors,
                    self@.rumors,
                    gossip@.rumors[j].content,
                    gossip@.caller,
                );
            }
        }
        r
    }

    /// Answer a push with a response: echo the just-received rumors under our
    /// current state, then append any further live rumors the caller is
    /// still oblivious of, moving it to informed for each.
    #[verifier::loop_isolation(false)]
    fn try_get_response(&mut self, gossip: &Gossip, is_push: bool) -> (r: Option<Gossip>)
        requires
            old(self).wf(),
            forall|j: int|
                0 <= j < gossip@.rumors.len() ==> has_rumor_key(
                    old(self)@.rumors,
                    (#[trigger] gossip@.rumors[j]).content,
                ),
        ensures
            final(self).wf(),
            final(self)@.our_id == old(self)@.our_id,
            final(self)@.players == old(self)@.players,
            rumors_monotone(old(self)@.rumors, final(self)@.rumors),
            !is_push ==> r is None && final(self)@ == old(self)@,
            is_push && gossip@.rumors.len() > 0 ==> r is Some,
            is_push ==> final(self)@.rumors.len() == old(self)@.rumors.len() && forall|i: int|
                0 <= i < old(self)@.rumors.len() ==> rumor_offer_effect(
                    old(self)@.rumors[i].1,
                    (#[trigger] final(self)@.rumors[i]).1,
                    gossip@.caller,
                ),
            match r {
                Some(resp) => is_push && resp@.caller == old(self)@.our_id && resp@.callee
                    == gossip@.caller && resp@.rumors.len() > 0 && resp@.rumors.len()
                    >= gossip@.rumors.len() && (forall|j: int|
                    0 <= j < gossip@.rumors.len() ==> (#[trigger] resp@.rumors[j]).content
                        == gossip@.rumors[j].content && echoes_record(
                        old(self)@.rumors,
                        resp@.rumors[j],
                    )) && (forall|i: int|
                    0 <= i < resp@.rumors.len() ==> (!((#[trigger] resp@.rumors[i]).state is D)
                        || exists|j: int|
                        0 <= j < gossip@.rumors.len() && (#[trigger] gossip@.rumors[j]).content
                            == resp@.rumors[i].content)) && (forall|i: int|
                    0 <= i < resp@.rumors.len() ==> has_rumor_key(
                        final(self)@.rumors,
                        (#[trigger] resp@.rumors[i]).content,
                    )),
                None => true,
            },
    {
        if !is_push {
            return None;
        }
        let ghost g0 = self@;
        let mut rumors_out: Vec<Rumor> = Vec::new();
        // Echo the received rumors, re-carrying our current state so the
        // caller's median rule sees our counter.
        let mut t: usize = 0;
        while t < gossip.rumors.len()
            invariant
                0 <= t <= gossip.rumors.len(),
                forall|i: int|
                    0 <= i < rumors_out@.len() ==> (!((#[trigger] rumors_out@[i])@.state is D)
                        || exists|j: int|
                        0 <= j < gossip@.rumors.len() && (#[trigger] gossip@.rumors[j]).content
                            == rumors_out@[i]@.content),
                forall|i: int|
                    0 <= i < rumors_out@.len() ==> has_rumor_key(
                        self@.rumors,
                        (#[trigger] rumors_out@[i])@.content,
                    ),
                rumors_out@.len() == t,
                forall|j: int|
                    0 <= j < t ==> (#[trigger] rumors_out@[j])@.content == gossip@.rumors[j].content
                        && echoes_record(g0.rumors, rumors_out@[j]@),
            decreases gossip.rumors.len() - t,
        {
            let key = self.hash(&gossip.rumors[t].content);
            match self.find_rumor(&key) {
                Some(idx) => {
                    let echo = Rumor {
                        content: self.rumors[idx].1.content.duplicate(),
                        state: self.rumors[idx].1.state.duplicate(),
                    };
                    proof {
                        assert(echo@.content == gossip@.rumors[t as int].content);
                        assert(self@.rumors[idx as int].0 == self@.rumors[idx as int].1.content);
                        assert(has_rumor_key(self@.rumors, echo@.content));
                        assert(self@.rumors[idx as int].0 == echo@.content && echo@.state
                            == self@.rumors[idx as int].1.state);
                        assert(echoes_record(g0.rumors, echo@));
                    }
                    rumors_out.push(echo);
                },
                None => {
                    // Integration has recorded every inbound content.
                    proof {
                        assert(has_rumor_key(self@.rumors, gossip@.rumors[t as int].content));
                        assert(false);
                    }
                },
            }
            t += 1;
        }
        // Then, the same way an outbound push is populated, append any other
        // live rumors the caller is still oblivious of.
        let ghost echo_count = rumors_out@.len();
        let ghost gpre = self@;
        self.append_rumors_for(&gossip.caller.id, &mut rumors_out);
        proof {
            lemma_rumors_monotone_trans(g0.rumors, g0.rumors, self@.rumors);
            assert forall|i: int| 0 <= i < rumors_out@.len() implies has_rumor_key(
                self@.rumors,
                (#[trigger] rumors_out@[i])@.content,
            ) by {
                if i < echo_count {
                    lemma_monotone_keeps_key(gpre.rumors, self@.rumors, rumors_out@[i]@.content);
                } else {
                    assert(rumor_informs(self@.rumors, rumors_out@[i]@.content, gossip.caller.id@));
                    let k = choose|k: int|
                        0 <= k < self@.rumors.len() && (#[trigger] self@.rumors[k]).1.content
                            == rumors_out@[i]@.content && self@.rumors[k].1.informed.contains(
                            gossip.caller.id@,
                        );
                    assert(self@.rumors[k].0 == self@.rumors[k].1.content);
                }
            }
        }
        if rumors_out.len() == 0 {
            return None;
        }
        let resp = Gossip {
            callee: ObliviousPlayer { id: gossip.caller.id },
            rumors: rumors_out,
            caller: InformedPlayer { id: self.our_id },
        };
        proof {
            assert(resp@.rumors =~= resp.rumors@.map_values(|x: Rumor| x@));
            assert forall|j: int| 0 <= j < gossip@.rumors.len() implies (
            #[trigger] resp@.rumors[j]).content == gossip@.rumors[j].content && echoes_record(
                g0.rumors,
                resp@.rumors[j],
            ) by {
                assert(resp.rumors@[j] == rumors_out@[j]);
            }
        }
        Some(resp)
    }

    /// Offer every rumor to `callee`: each live rumor is advanced exactly
    /// once, and an entry is appended for it exactly when the advanced state
    /// is still live and the callee was still oblivious — exactly then the
    /// callee moves from oblivious to informed.
    #[verifier::loop_isolation(false)]
    #[verifier::rlimit(60)]
    fn append_rumors_for(&mut self, callee: &Id, out: &mut Vec<Rumor>)
        requires
            old(self).wf(),
        ensures
            final(self).wf(),
            final(self)@.our_id == old(self)@.our_id,
            final(self)@.players == old(self)@.players,
            final(self)@.rumors.len() == old(self)@.rumors.len(),
            rumors_monotone(old(self)@.rumors, final(self)@.rumors),
            forall|i: int|
                0 <= i < old(self)@.rumors.len() ==> rumor_offer_effect(
                    old(self)@.rumors[i].1,
                    (#[trigger] final(self)@.rumors[i]).1,
                    callee@,
                ),
            old(out)@.len() <= final(out)@.len(),
            forall|i: int| 0 <= i < old(out)@.len() ==> final(out)@[i] == old(out)@[i],
            forall|t: int|
                old(out)@.len() <= t < final(out)@.len() ==> !((#[trigger] final(out)@[t])@.state
                    is D),
            forall|t: int|
                old(out)@.len() <= t < final(out)@.len() ==> rumor_informs(
                    final(self)@.rumors,
                    (#[trigger] final(out)@[t])@.content,
                    callee@,
                ),
            forall|t: int|
                old(out)@.len() <= t < final(out)@.len() ==> entry_from_offer(
                    old(self)@.rumors,
                    final(self)@.rumors,
                    (#[trigger] final(out)@[t])@,
                    callee@,
                ),
            forall|i: int|
                0 <= i < old(self)@.rumors.len() && offer_sends(
                    (#[trigger] old(self)@.rumors[i]).1,
                    callee@,
                ) ==> out_offers(final(out)@, old(out)@.len() as int, old(self)@.rumors[i].1.content),
            old(self)@.rumors.len() == 0 ==> final(out)@ == old(out)@ && final(self)@ == old(self)@,
    {
        let ghost g0 = self@;
        let mut idx: usize = 0;
        while idx < self.rumors.len()
            invariant
                0 <= idx <= self.rumors.len(),
                self.wf(),
                self@.our_id == g0.our_id,
                self@.players == g0.players,
                self@.rumors.len() == g0.rumors.len(),
                rumors_monotone(g0.rumors, self@.rumors),
                forall|i: int|
                    0 <= i < idx ==> rumor_offer_effect(
                        g0.rumors[i].1,
                        (#[trigger] self@.rumors[i]).1,
                        callee@,
                    ),
                forall|i: int|
                    idx <= i < g0.rumors.len() ==> (#[trigger] self@.rumors[i]).1 == g0.rumors[i].1,
                old(out)@.len() <= out@.len(),
                forall|i: int| 0 <= i < old(out)@.len() ==> out@[i] == old(out)@[i],
                forall|t: int|
                    old(out)@.len() <= t < out@.len() ==> !((#[trigger] out@[t])@.state is D),
                forall|t: int|
                    old(out)@.len() <= t < out@.len() ==> rumor_informs(
                        self@.rumors,
                        (#[trigger] out@[t])@.content,
                        callee@,
                    ),
                forall|t: int|
                    old(out)@.len() <= t < out@.len() ==> entry_from_offer_upto(
                        g0.rumors,
                        self@.rumors,
                        (#[trigger] out@[t])@,
                        callee@,
                        idx as int,
                    ),
                forall|i: int|
                    0 <= i < idx && offer_sends((#[trigger] g0.rumors[i]).1, callee@)
                        ==> out_offers(out@, old(out)@.len() as int, g0.rumors[i].1.content),
                g0.rumors.len() == 0 ==> out@ == old(out)@ && self@ == g0,
            decreases self.rumors.len() - idx,
        {
            let ghost gmid = self@;
            let ghost out_mid = out@;
            let offered = self.rumors[idx].1.offer_to(callee);
            proof {
                assert(self@.rumors =~= gmid.rumors.update(
                    idx as int,
                    (gmid.rumors[idx as int].0, self@.rumors[idx as int].1),
                ));
                lemma_monotone_update(gmid.rumors, idx as int, self@.rumors[idx as int].1);
                lemma_rumors_monotone_trans(g0.rumors, gmid.rumors, self@.rumors);
                assert forall|a: int, b: int|
                    0 <= a < b < self@.rumors.len() implies self@.rumors[a].0 != self@.rumors[b].0
                    by {
                    assert(self@.rumors[a].0 == gmid.rumors[a].0);
                    assert(self@.rumors[b].0 == gmid.rumors[b].0);
                }
                assert forall|i: int|
                    0 <= i < g0.rumors.len() && i != idx implies (#[trigger] self@.rumors[i]).1
                    == gmid.rumors[i].1 by {}
                assert forall|t: int|
                    old(out)@.len() <= t < out@.len() implies rumor_informs(
                    self@.rumors,
                    (#[trigger] out@[t])@.content,
                    callee@,
                ) by {
                    lemma_monotone_keeps_informs(
                        gmid.rumors,
                        self@.rumors,
                        out@[t]@.content,
                        callee@,
                    );
                }
                // Every already-made entry keeps its witness: its record is
                // strictly before idx, so this offer did not touch it.
                assert forall|t: int|
                    old(out)@.len() <= t < out@.len() implies entry_from_offer_upto(
                    g0.rumors,
                    self@.rumors,
                    (#[trigger] out@[t])@,
                    callee@,
                    idx as int + 1,
                ) by {
                    assert(entry_from_offer_upto(
                        g0.rumors,
                        gmid.rumors,
                        out@[t]@,
                        callee@,
                        idx as int,
                    ));
                    let i = choose|i: int|
                        0 <= i < idx && i < g0.rumors.len() && (#[trigger] g0.rumors[i]).1.content
                            == out@[t]@.content && g0.rumors[i].1.oblivious.contains(callee@)
                            && out@[t]@.state == gmid.rumors[i].1.state;
                    assert(self@.rumors[i].1 == gmid.rumors[i].1);
                }
            }
            match offered {
                Some(rum) => {
                    proof {
                        lemma_ids_push_contains(
                            gmid.rumors[idx as int].1.informed,
                            callee@,
                            callee@,
                        );
                        assert(self@.rumors[idx as int].1.content == rum@.content);
                        assert(self@.rumors[idx as int].1.informed.contains(callee@));
                        assert(rumor_informs(self@.rumors, rum@.content, callee@));
                        assert(gmid.rumors[idx as int].1 == g0.rumors[idx as int].1);
                        assert(offer_sends(g0.rumors[idx as int].1, callee@));
                        assert(rum@.content == g0.rumors[idx as int].1.content);
                        assert(rum@.state == self@.rumors[idx as int].1.state);
                    }
                    out.push(rum);
                    proof {
                        assert forall|t: int|
                            old(out)@.len() <= t < out@.len() implies entry_from_offer_upto(
                            g0.rumors,
                            self@.rumors,
                            (#[trigger] out@[t])@,
                            callee@,
                            idx as int + 1,
                        ) by {
                            if t < out_mid.len() {
                                assert(out@[t] == out_mid[t]);
                            } else {
                                assert(out@[t] == rum);
                                assert(g0.rumors[idx as int].1.content == out@[t]@.content
                                    && g0.rumors[idx as int].1.oblivious.contains(callee@)
                                    && out@[t]@.state == self@.rumors[idx as int].1.state);
                            }
                        }
                        assert forall|i: int|
                            0 <= i < idx + 1 && offer_sends((#[trigger] g0.rumors[i]).1, callee@)
                            implies out_offers(out@, old(out)@.len() as int, g0.rumors[i].1.content)
                            by {
                            if i < idx {
                                assert(out_offers(out_mid, old(out)@.len() as int, g0.rumors[i].1.content));
                                let t = choose|t: int|
                                    old(out)@.len() <= t < out_mid.len() && (#[trigger] out_mid[t])@.content
                                        == g0.rumors[i].1.content;
                                assert(out@[t] == out_mid[t]);
                            } else {
                                assert(out@[out@.len() - 1]@.content == g0.rumors[i].1.content);
                            }
                        }
                    }
                },
                None => {
                    proof {
                        // Nothing was emitted, so this record did not send.
                        assert(!offer_sends(g0.rumors[idx as int].1, callee@));
                        assert forall|t: int|
                            old(out)@.len() <= t < out@.len() implies entry_from_offer_upto(
                            g0.rumors,
                            self@.rumors,
                            (#[trigger] out@[t])@,
                            callee@,
                            idx as int + 1,
                        ) by {}
                    }
                },
            }
            idx += 1;
        }
    }
    /// Produce at most one outbound push: offer the rumors to the peers in a
    /// uniformly random order and send to the first peer still oblivious of
    /// anything live. Each tried peer advances every live rumor once, so the
    /// rumor count never changes and a rumor is pushed only to a peer that
    /// was still oblivious of it. With no peers nothing happens at all; a
    /// live rumor that survives its advance with every current peer
    /// oblivious forces a push whatever order the shuffle picks.
    #[verifier::loop_isolation(false)]
    #[verifier::rlimit(60)]
    pub fn collect_gossip(&mut self) -> (r: Option<Gossip>)
        requires
            old(self).wf(),
        ensures
            final(self).wf(),
            final(self)@.our_id == old(self)@.our_id,
            final(self)@.players == old(self)@.players,
            final(self)@.rumors.len() == old(self)@.rumors.len(),
            rumors_monotone(old(self)@.rumors, final(self)@.rumors),
            old(self)@.players.len() == 0 ==> r is None && final(self)@ == old(self)@,
            old(self)@.rumors.len() == 0 ==> r is None && final(self)@ == old(self)@,
            old(self)@.players.len() > 0 ==> forall|i: int|
                0 <= i < old(self)@.rumors.len() ==> advanced_some_rounds(
                    old(self)@.rumors[i].1,
                    (#[trigger] final(self)@.rumors[i]).1,
                    old(self)@.players.len() as int,
                ),
            push_is_due(old(self)@) && old(self)@.players.len() > 0 ==> r is Some,
            match r {
                Some(g) => g@.caller == old(self)@.our_id && old(self)@.players.contains(g@.callee)
                    && g@.rumors.len() > 0 && (forall|t: int|
                    0 <= t < g@.rumors.len() ==> !((#[trigger] g@.rumors[t]).state is D)) && (
                forall|t: int|
                    0 <= t < g@.rumors.len() ==> rumor_informs(
                        final(self)@.rumors,
                        (#[trigger] g@.rumors[t]).content,
                        g@.callee,
                    )) && (forall|t: int|
                    0 <= t < g@.rumors.len() ==> entry_from_offer(
                        old(self)@.rumors,
                        final(self)@.rumors,
                        #[trigger] g@.rumors[t],
                        g@.callee,
                    )),
                None => true,
            },
    {
        let our = self.our_id;
        let order = shuffled_players(&self.players);
        let ghost g0 = self@;
        let ghost due = push_is_due(g0);
        let mut p: usize = 0;
        while p < order.len()
            invariant
                0 <= p <= order.len(),
                self.wf(),
                self@.our_id == g0.our_id,
                self@.players == g0.players,
                self@.rumors.len() == g0.rumors.len(),
                rumors_monotone(g0.rumors, self@.rumors),
                order@.to_multiset() == old(self).players@.to_multiset(),
                order@.len() == g0.players.len(),
                p == 0 ==> self@ == g0,
                due && g0.players.len() > 0 ==> p == 0,
                forall|i: int|
                    0 <= i < g0.rumors.len() ==> oblivious_within(
                        (#[trigger] self@.rumors[i]).1,
                        g0.rumors[i].1,
                    ),
                forall|i: int|
                    0 <= i < g0.rumors.len() ==> (#[trigger] self@.rumors[i]).1.state
                        == advanced_times(
                        g0.rumors[i].1.state,
                        g0.rumors[i].1.max_b_age,
                        g0.rumors[i].1.max_c_rounds,
                        g0.rumors[i].1.max_rounds,
                        p as nat,
                    ),
                g0.rumors.len() == 0 ==> self@ == g0,
            decreases order.len() - p,
        {
            let callee = order[p].id;
            let ghost gmid = self@;
            let mut out: Vec<Rumor> = Vec::new();
            self.append_rumors_for(&callee, &mut out);
            proof {
                lemma_rumors_monotone_trans(g0.rumors, gmid.rumors, self@.rumors);
                assert forall|i: int| 0 <= i < g0.rumors.len() implies oblivious_within(
                    (#[trigger] self@.rumors[i]).1,
                    g0.rumors[i].1,
                ) by {
                    lemma_offer_oblivious_within(gmid.rumors[i].1, self@.rumors[i].1, callee@);
                    assert forall|y: Seq<u8>|
                        #[trigger] self@.rumors[i].1.oblivious.contains(y) implies g0.rumors[
                        i].1.oblivious.contains(y) by {
                        assert(gmid.rumors[i].1.oblivious.contains(y));
                    }
                }
                // Each tried peer advances every record once more.
                assert forall|i: int|
                    0 <= i < g0.rumors.len() implies (#[trigger] self@.rumors[i]).1.state
                    == advanced_times(
                    g0.rumors[i].1.state,
                    g0.rumors[i].1.max_b_age,
                    g0.rumors[i].1.max_c_rounds,
                    g0.rumors[i].1.max_rounds,
                    (p + 1) as nat,
                ) by {
                    let a0 = g0.rumors[i].1;
                    lemma_advanced_times_snoc(
                        a0.state,
                        a0.max_b_age,
                        a0.max_c_rounds,
                        a0.max_rounds,
                        p as nat,
                    );
                    assert(rumor_offer_effect(gmid.rumors[i].1, self@.rumors[i].1, callee@));
                    assert(gmid.rumors[i].1.max_b_age == a0.max_b_age);
                }
            }
            if out.len() > 0 {
                proof {
                    assert(old(self).players@.to_multiset().contains(order@[p as int]));
                    assert(old(self).players@.contains(order@[p as int]));
                    let k = choose|k: int|
                        0 <= k < old(self).players@.len() && old(self).players@[k] == order@[p as int];
                    assert(players_view(old(self).players@)[k] == callee@);
                    assert(old(self)@.players.contains(callee@));
                    // Every emitted entry names a rumor whose record had the
                    // callee oblivious before this call.
                    assert forall|t: int| 0 <= t < out@.len() implies entry_from_offer(
                        g0.rumors,
                        self@.rumors,
                        (#[trigger] out@[t])@,
                        callee@,
                    ) by {
                        assert(entry_from_offer(gmid.rumors, self@.rumors, out@[t]@, callee@));
                        let i = choose|i: int|
                            0 <= i < gmid.rumors.len() && i < self@.rumors.len() && (
                            #[trigger] gmid.rumors[i]).1.content == out@[t]@.content
                                && gmid.rumors[i].1.oblivious.contains(callee@) && out@[t]@.state
                                == self@.rumors[i].1.state;
                        assert(g0.rumors[i].1.content == gmid.rumors[i].1.content);
                        assert(oblivious_within(gmid.rumors[i].1, g0.rumors[i].1));
                        assert(g0.rumors[i].1.oblivious.contains(callee@));
                    }
                }
                let g = Gossip {
                    callee: ObliviousPlayer { id: callee },
                    rumors: out,
                    caller: InformedPlayer { id: our },
                };
                proof {
                    assert(g@.rumors =~= g.rumors@.map_values(|x: Rumor| x@));
                    assert forall|i: int| 0 <= i < g0.rumors.len() implies advanced_some_rounds(
                        g0.rumors[i].1,
                        (#[trigger] self@.rumors[i]).1,
                        g0.players.len() as int,
                    ) by {
                        let k: nat = (p + 1) as nat;
                        assert(1 <= k <= g0.players.len());
                        assert(self@.rumors[i].1.state == advanced_times(
                            g0.rumors[i].1.state,
                            g0.rumors[i].1.max_b_age,
                            g0.rumors[i].1.max_c_rounds,
                            g0.rumors[i].1.max_rounds,
                            k,
                        ));
                    }
                }
                return Some(g);
            }
            proof {
                // A due push cannot fail on the very first candidate.
                if p == 0 && due {
                    let i = choose|i: int|
                        0 <= i < g0.rumors.len() && {
                            let a = (#[trigger] g0.rumors[i]).1;
                            &&& !(a.state is D)
                            &&& !(spec_next_round(
                                a.state,
                                a.max_b_age,
                                a.max_c_rounds,
                                a.max_rounds,
                            ) is D)
                            &&& forall|y: Seq<u8>|
                                #[trigger] g0.players.contains(y) ==> a.oblivious.contains(y)
                        };
                    assert(old(self).players@.to_multiset().contains(order@[0]));
                    assert(old(self).players@.contains(order@[0]));
                    let k = choose|k: int|
                        0 <= k < old(self).players@.len() && old(self).players@[k] == order@[0];
                    assert(players_view(old(self).players@)[k] == callee@);
                    assert(g0.players.contains(callee@));
                    assert(g0.rumors[i].1.oblivious.contains(callee@));
                    assert(offer_sends(gmid.rumors[i].1, callee@));
                    assert(out_offers(out@, 0, gmid.rumors[i].1.content));
                    let t = choose|t: int|
                        0 <= t < out@.len() && (#[trigger] out@[t])@.content == gmid.rumors[
                            i].1.content;
                    assert(false);
                }
            }
            p += 1;
        }
        proof {
            if due && g0.players.len() > 0 {
                assert(p == 0 && order@.len() == 0);
                assert(false);
            }
            if g0.players.len() > 0 {
                assert forall|i: int| 0 <= i < g0.rumors.len() implies advanced_some_rounds(
                    g0.rumors[i].1,
                    (#[trigger] self@.rumors[i]).1,
                    g0.players.len() as int,
                ) by {
                    let k: nat = p as nat;
                    assert(p == order@.len());
                    assert(1 <= k <= g0.players.len());
                    assert(self@.rumors[i].1.state == advanced_times(
                        g0.rumors[i].1.state,
                        g0.rumors[i].1.max_b_age,
                        g0.rumors[i].1.max_c_rounds,
                        g0.rumors[i].1.max_rounds,
                        k,
                    ));
                }
            }
        }
        None
    }
}

/// An exact copy of an oblivious-player list.
#[verifier::loop_isolation(false)]
fn clone_oblivious(v: &Vec<ObliviousPlayer>) -> (r: Vec<ObliviousPlayer>)
    ensures
        r@ == v@,
{
    let mut r: Vec<ObliviousPlayer> = Vec::new();
    let mut i: usize = 0;
    while i < v.len()
        invariant
            0 <= i <= v.len(),
            r@ == v@.take(i as int),
        decreases v.len() - i,
    {
        r.push(v[i]);
        proof {
            assert(r@ =~= v@.take(i as int + 1));
        }
        i += 1;
    }
    proof {
        assert(r@ =~= v@);
    }
    r
}



/// Partition invariant: a well-formed engine keeps, for every rumor, the
/// informed and oblivious sets disjoint. Their union, together with our own
/// identity, is the peer set fixed at the rumor's birth: every operation
/// preserves it, as `rumor_step_ok` states.
pub proof fn lemma_partition_invariant(g: GossipingV, i: int)
    requires
        gossiping_wf(g),
        0 <= i < g.rumors.len(),
    ensures
        g.rumors[i].1.informed.to_set().intersect(g.rumors[i].1.oblivious.to_set()) == Set::<
            Seq<u8>,
        >::empty(),
{
    let r = g.rumors[i].1;
    assert forall|y: Seq<u8>|
        !(#[trigger] r.informed.to_set().intersect(r.oblivious.to_set()).contains(y)) by {
        if r.informed.contains(y) && r.oblivious.contains(y) {
            let a = choose|a: int| 0 <= a < r.informed.len() && r.informed[a] == y;
            let b = choose|b: int| 0 <= b < r.oblivious.len() && r.oblivious[b] == y;
            assert(r.informed[a] != r.oblivious[b]);
        }
    }
    assert(r.informed.to_set().intersect(r.oblivious.to_set()) =~= Set::<Seq<u8>>::empty());
}

/// Monotone informed set: across any allowed step of a rumor — and so across
/// every engine operation — no peer ever moves from informed back to
/// oblivious, and the partition's union never changes.
pub proof fn lemma_informed_monotone(a: RumorProgressV, b: RumorProgressV)
    requires
        rumor_step_ok(a, b),
    ensures
        a.informed.to_set() <= b.informed.to_set(),
        a.informed.to_set() + a.oblivious.to_set() == b.informed.to_set() + b.oblivious.to_set(),
{
}

} // verus!
