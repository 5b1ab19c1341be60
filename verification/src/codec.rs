//! Deterministic byte encoding of gossip messages.
//!
//! The wire format is fixed-width fields and length-prefixed lists: a length
//! is eight little-endian bytes, an identity is 32 raw bytes, a state is a tag
//! byte followed by its fields. The decoder is the inverse of the encoder, so
//! decoding an encoded gossip gives the gossip back; this is proved below.

use vstd::prelude::*;

use crate::gossip::{Content, Gossip, GossipV, InformedPlayer, ObliviousPlayer, Rumor, RumorV};
use crate::id::Id;
use crate::state::{ages_view, Age, Round, State, StateV};

verus! {

broadcast use vstd::array::group_array_axioms, vstd::std_specs::vec::axiom_spec_len;

// ---------------------------------------------------------------------------
// Little-endian 64-bit lengths
// ---------------------------------------------------------------------------

/// The eight little-endian bytes of `n`.
pub open spec fn u64_le(n: u64) -> Seq<u8> {
    seq![
        (n & 0xff) as u8,
        ((n >> 8) & 0xff) as u8,
        ((n >> 16) & 0xff) as u8,
        ((n >> 24) & 0xff) as u8,
        ((n >> 32) & 0xff) as u8,
        ((n >> 40) & 0xff) as u8,
        ((n >> 48) & 0xff) as u8,
        ((n >> 56) & 0xff) as u8,
    ]
}

/// The value of eight little-endian bytes.
pub open spec fn u64_of_bytes(
    b0: u8,
    b1: u8,
    b2: u8,
    b3: u8,
    b4: u8,
    b5: u8,
    b6: u8,
    b7: u8,
) -> u64 {
    (b0 as u64) | (b1 as u64) << 8 | (b2 as u64) << 16 | (b3 as u64) << 24 | (b4 as u64) << 32 | (
    b5 as u64) << 40 | (b6 as u64) << 48 | (b7 as u64) << 56
}

/// Reading a 64-bit length: eight bytes, little endian.
pub open spec fn parse_u64(b: Seq<u8>) -> Option<(u64, Seq<u8>)> {
    if b.len() >= 8 {
        Some((u64_of_bytes(b[0], b[1], b[2], b[3], b[4], b[5], b[6], b[7]), b.skip(8)))
    } else {
        None
    }
}

proof fn lemma_u64_le_value(n: u64)
    ensures
        u64_of_bytes(
            (n & 0xff) as u8,
            ((n >> 8) & 0xff) as u8,
            ((n >> 16) & 0xff) as u8,
            ((n >> 24) & 0xff) as u8,
            ((n >> 32) & 0xff) as u8,
            ((n >> 40) & 0xff) as u8,
            ((n >> 48) & 0xff) as u8,
            ((n >> 56) & 0xff) as u8,
        ) == n,
{
    assert((((n & 0xff) as u8) as u64) | ((((n >> 8) & 0xff) as u8) as u64) << 8 | ((((n >> 16)
        & 0xff) as u8) as u64) << 16 | ((((n >> 24) & 0xff) as u8) as u64) << 24 | ((((n >> 32)
        & 0xff) as u8) as u64) << 32 | ((((n >> 40) & 0xff) as u8) as u64) << 40 | ((((n >> 48)
        & 0xff) as u8) as u64) << 48 | ((((n >> 56) & 0xff) as u8) as u64) << 56 == n)
        by (bit_vector);
}

pub proof fn lemma_parse_u64(n: u64, rest: Seq<u8>)
    ensures
        parse_u64(u64_le(n) + rest) == Some((n, rest)),
{
    let b = u64_le(n) + rest;
    lemma_u64_le_value(n);
    assert(b.skip(8) =~= rest);
    assert(parse_u64(b)->Some_0.0 == n);
}

// ---------------------------------------------------------------------------
// Length-prefixed byte strings
// ---------------------------------------------------------------------------

/// A byte string: its length, then its bytes.
pub open spec fn enc_bytes(p: Seq<u8>) -> Seq<u8> {
    u64_le(p.len() as u64) + p
}

pub open spec fn parse_bytes(b: Seq<u8>) -> Option<(Seq<u8>, Seq<u8>)> {
    match parse_u64(b) {
        Some((n, r)) => if n <= r.len() {
            Some((r.take(n as int), r.skip(n as int)))
        } else {
            None
        },
        None => None,
    }
}

pub proof fn lemma_parse_bytes(p: Seq<u8>, rest: Seq<u8>)
    requires
        p.len() <= u64::MAX,
    ensures
        parse_bytes(enc_bytes(p) + rest) == Some((p, rest)),
{
    let b = enc_bytes(p) + rest;
    assert(b =~= u64_le(p.len() as u64) + (p + rest));
    lemma_parse_u64(p.len() as u64, p + rest);
    assert((p + rest).take(p.len() as int) =~= p);
    assert((p + rest).skip(p.len() as int) =~= rest);
}

// ---------------------------------------------------------------------------
// Reported ages
// ---------------------------------------------------------------------------

/// A reported age entry: a 32-byte identity and the age it reported.
pub open spec fn age_pair_wf(p: (Seq<u8>, int)) -> bool {
    p.0.len() == 32 && 0 <= p.1 < 256
}

pub open spec fn enc_age_pair(p: (Seq<u8>, int)) -> Seq<u8> {
    p.0 + seq![p.1 as u8]
}

pub open spec fn parse_age_pair(b: Seq<u8>) -> Option<((Seq<u8>, int), Seq<u8>)> {
    if b.len() >= 33 {
        Some(((b.take(32), b[32] as int), b.skip(33)))
    } else {
        None
    }
}

pub proof fn lemma_parse_age_pair(p: (Seq<u8>, int), rest: Seq<u8>)
    requires
        age_pair_wf(p),
    ensures
        parse_age_pair(enc_age_pair(p) + rest) == Some((p, rest)),
{
    let b = enc_age_pair(p) + rest;
    assert(b.take(32) =~= p.0);
    assert(b[32] == p.1 as u8);
    assert(b.skip(33) =~= rest);
    assert(parse_age_pair(b)->Some_0.0 == p);
}

pub open spec fn enc_age_pairs(s: Seq<(Seq<u8>, int)>) -> Seq<u8>
    decreases s.len(),
{
    if s.len() == 0 {
        Seq::empty()
    } else {
        enc_age_pair(s.first()) + enc_age_pairs(s.drop_first())
    }
}

pub open spec fn parse_age_pairs(b: Seq<u8>, n: nat) -> Option<(Seq<(Seq<u8>, int)>, Seq<u8>)>
    decreases n,
{
    if n == 0 {
        Some((Seq::empty(), b))
    } else {
        match parse_age_pair(b) {
            Some((p, r)) => match parse_age_pairs(r, (n - 1) as nat) {
                Some((s, r2)) => Some((seq![p] + s, r2)),
                None => None,
            },
            None => None,
        }
    }
}

pub proof fn lemma_parse_age_pairs(s: Seq<(Seq<u8>, int)>, rest: Seq<u8>)
    requires
        forall|i: int| 0 <= i < s.len() ==> age_pair_wf(#[trigger] s[i]),
    ensures
        parse_age_pairs(enc_age_pairs(s) + rest, s.len()) == Some((s, rest)),
    decreases s.len(),
{
    if s.len() == 0 {
        assert(enc_age_pairs(s) + rest =~= rest);
        assert(parse_age_pairs(rest, 0)->Some_0.0 =~= s);
    } else {
        let b = enc_age_pairs(s) + rest;
        assert(b =~= enc_age_pair(s.first()) + (enc_age_pairs(s.drop_first()) + rest));
        lemma_parse_age_pair(s.first(), enc_age_pairs(s.drop_first()) + rest);
        assert(forall|i: int|
            0 <= i < s.drop_first().len() ==> age_pair_wf(#[trigger] s.drop_first()[i]));
        lemma_parse_age_pairs(s.drop_first(), rest);
        assert(seq![s.first()] + s.drop_first() =~= s);
    }
}

// ---------------------------------------------------------------------------
// States
// ---------------------------------------------------------------------------

/// What the encoder needs of a state: all counters fit a byte and every
/// reported identity is 32 bytes. Every `State` value's view satisfies this.
pub open spec fn state_bytes_wf(s: StateV) -> bool {
    match s {
        StateV::B { round, age, player_ages } => 0 <= round < 256 && 0 <= age < 256
            && player_ages.len() <= u64::MAX && forall|i: int|
            0 <= i < player_ages.len() ==> age_pair_wf(#[trigger] player_ages[i]),
        StateV::C { rounds_in_state_b, round } => 0 <= rounds_in_state_b < 256 && 0 <= round < 256,
        StateV::D => true,
    }
}

/// A state on the wire: tag 0 (B) with round, age and the reported ages;
/// tag 1 (C) with its two round counters; tag 2 (D) alone.
pub open spec fn enc_state(s: StateV) -> Seq<u8> {
    match s {
        StateV::B { round, age, player_ages } => seq![0u8, round as u8, age as u8] + u64_le(
            player_ages.len() as u64,
        ) + enc_age_pairs(player_ages),
        StateV::C { rounds_in_state_b, round } => seq![1u8, rounds_in_state_b as u8, round as u8],
        StateV::D => seq![2u8],
    }
}

pub open spec fn parse_state(b: Seq<u8>) -> Option<(StateV, Seq<u8>)> {
    if b.len() < 1 {
        None
    } else if b[0] == 0 {
        if b.len() >= 3 {
            match parse_u64(b.skip(3)) {
                Some((n, r)) => match parse_age_pairs(r, n as nat) {
                    Some((pa, r2)) => Some(
                        (StateV::B { round: b[1] as int, age: b[2] as int, player_ages: pa }, r2),
                    ),
                    None => None,
                },
                None => None,
            }
        } else {
            None
        }
    } else if b[0] == 1 {
        if b.len() >= 3 {
            Some((StateV::C { rounds_in_state_b: b[1] as int, round: b[2] as int }, b.skip(3)))
        } else {
            None
        }
    } else if b[0] == 2 {
        Some((StateV::D, b.skip(1)))
    } else {
        None
    }
}

pub proof fn lemma_parse_state(s: StateV, rest: Seq<u8>)
    requires
        state_bytes_wf(s),
    ensures
        parse_state(enc_state(s) + rest) == Some((s, rest)),
{
    let b = enc_state(s) + rest;
    match s {
        StateV::B { round, age, player_ages } => {
            assert(b[0] == 0 && b[1] == round as u8 && b[2] == age as u8);
            assert(b.skip(3) =~= u64_le(player_ages.len() as u64) + (enc_age_pairs(player_ages)
                + rest));
            lemma_parse_u64(player_ages.len() as u64, enc_age_pairs(player_ages) + rest);
            lemma_parse_age_pairs(player_ages, rest);
            assert(parse_state(b)->Some_0.0 == s);
        },
        StateV::C { rounds_in_state_b, round } => {
            assert(b[0] == 1 && b[1] == rounds_in_state_b as u8 && b[2] == round as u8);
            assert(b.skip(3) =~= rest);
            assert(parse_state(b)->Some_0.0 == s);
        },
        StateV::D => {
            assert(b[0] == 2);
            assert(b.skip(1) =~= rest);
        },
    }
}

// ---------------------------------------------------------------------------
// Rumors
// ---------------------------------------------------------------------------

pub open spec fn rumor_bytes_wf(r: RumorV) -> bool {
    r.content.len() <= u64::MAX && state_bytes_wf(r.state)
}

pub open spec fn enc_rumor(r: RumorV) -> Seq<u8> {
    enc_bytes(r.content) + enc_state(r.state)
}

pub open spec fn parse_rumor(b: Seq<u8>) -> Option<(RumorV, Seq<u8>)> {
    match parse_bytes(b) {
        Some((c, r)) => match parse_state(r) {
            Some((s, r2)) => Some((RumorV { content: c, state: s }, r2)),
            None => None,
        },
        None => None,
    }
}

pub proof fn lemma_parse_rumor(r: RumorV, rest: Seq<u8>)
    requires
        rumor_bytes_wf(r),
    ensures
        parse_rumor(enc_rumor(r) + rest) == Some((r, rest)),
{
    let b = enc_rumor(r) + rest;
    assert(b =~= enc_bytes(r.content) + (enc_state(r.state) + rest));
    lemma_parse_bytes(r.content, enc_state(r.state) + rest);
    lemma_parse_state(r.state, rest);
    assert(parse_rumor(b)->Some_0.0 == r);
}

pub open spec fn enc_rumors(s: Seq<RumorV>) -> Seq<u8>
    decreases s.len(),
{
    if s.len() == 0 {
        Seq::empty()
    } else {
        enc_rumor(s.first()) + enc_rumors(s.drop_first())
    }
}

pub open spec fn parse_rumors(b: Seq<u8>, n: nat) -> Option<(Seq<RumorV>, Seq<u8>)>
    decreases n,
{
    if n == 0 {
        Some((Seq::empty(), b))
    } else {
        match parse_rumor(b) {
            Some((r, rem)) => match parse_rumors(rem, (n - 1) as nat) {
                Some((s, rem2)) => Some((seq![r] + s, rem2)),
                None => None,
            },
            None => None,
        }
    }
}

pub proof fn lemma_parse_rumors(s: Seq<RumorV>, rest: Seq<u8>)
    requires
        forall|i: int| 0 <= i < s.len() ==> rumor_bytes_wf(#[trigger] s[i]),
    ensures
        parse_rumors(enc_rumors(s) + rest, s.len()) == Some((s, rest)),
    decreases s.len(),
{
    if s.len() == 0 {
        assert(enc_rumors(s) + rest =~= rest);
        assert(parse_rumors(rest, 0)->Some_0.0 =~= s);
    } else {
        let b = enc_rumors(s) + rest;
        assert(b =~= enc_rumor(s.first()) + (enc_rumors(s.drop_first()) + rest));
        lemma_parse_rumor(s.first(), enc_rumors(s.drop_first()) + rest);
        assert(forall|i: int|
            0 <= i < s.drop_first().len() ==> rumor_bytes_wf(#[trigger] s.drop_first()[i]));
        lemma_parse_rumors(s.drop_first(), rest);
        assert(seq![s.first()] + s.drop_first() =~= s);
    }
}

// ---------------------------------------------------------------------------
// Gossip messages
// ---------------------------------------------------------------------------

pub open spec fn gossip_bytes_wf(g: GossipV) -> bool {
    g.callee.len() == 32 && g.caller.len() == 32 && g.rumors.len() <= u64::MAX && forall|i: int|
        0 <= i < g.rumors.len() ==> rumor_bytes_wf(#[trigger] g.rumors[i])
}

/// A gossip on the wire: callee identity, caller identity, then the rumors.
pub open spec fn enc_gossip(g: GossipV) -> Seq<u8> {
    g.callee + g.caller + u64_le(g.rumors.len() as u64) + enc_rumors(g.rumors)
}

pub open spec fn parse_gossip(b: Seq<u8>) -> Option<(GossipV, Seq<u8>)> {
    if b.len() >= 64 {
        match parse_u64(b.skip(64)) {
            Some((n, r)) => match parse_rumors(r, n as nat) {
                Some((s, r2)) => Some(
                    (GossipV { callee: b.take(32), caller: b.skip(32).take(32), rumors: s }, r2),
                ),
                None => None,
            },
            None => None,
        }
    } else {
        None
    }
}

/// A whole buffer as one gossip: nothing may follow it.
pub open spec fn gossip_of_bytes(b: Seq<u8>) -> Option<GossipV> {
    match parse_gossip(b) {
        Some((g, r)) => if r.len() == 0 {
            Some(g)
        } else {
            None
        },
        None => None,
    }
}

pub proof fn lemma_parse_gossip(g: GossipV, rest: Seq<u8>)
    requires
        gossip_bytes_wf(g),
    ensures
        parse_gossip(enc_gossip(g) + rest) == Some((g, rest)),
{
    let b = enc_gossip(g) + rest;
    assert(b.take(32) =~= g.callee);
    assert(b.skip(32).take(32) =~= g.caller);
    assert(b.skip(64) =~= u64_le(g.rumors.len() as u64) + (enc_rumors(g.rumors) + rest));
    lemma_parse_u64(g.rumors.len() as u64, enc_rumors(g.rumors) + rest);
    lemma_parse_rumors(g.rumors, rest);
    assert(parse_gossip(b)->Some_0.0 =~= g);
}

/// Round trip: decoding an encoded gossip gives the gossip back.
pub proof fn lemma_gossip_roundtrip(g: GossipV)
    requires
        gossip_bytes_wf(g),
    ensures
        gossip_of_bytes(enc_gossip(g)) == Some(g),
{
    lemma_parse_gossip(g, Seq::empty());
    assert(enc_gossip(g) + Seq::<u8>::empty() =~= enc_gossip(g));
}

// ---------------------------------------------------------------------------
// Well-formedness of every in-memory value
// ---------------------------------------------------------------------------

pub proof fn lemma_state_view_wf(s: &State)
    ensures
        state_bytes_wf(s@),
{
    match s {
        State::B { round, age, player_ages } => {
            assert(vstd::std_specs::vec::spec_vec_len(player_ages) == player_ages@.len());
            assert(player_ages@.len() <= usize::MAX);
            assert(ages_view(player_ages@).len() == player_ages@.len());
            assert forall|i: int| 0 <= i < ages_view(player_ages@).len() implies age_pair_wf(
                #[trigger] ages_view(player_ages@)[i],
            ) by {
                assert(ages_view(player_ages@)[i] == (
                    player_ages@[i].0@,
                    player_ages@[i].1.value as int,
                ));
                assert(player_ages@[i].0@.len() == 32);
            }
        },
        _ => {},
    }
}

pub proof fn lemma_gossip_view_wf(g: &Gossip)
    ensures
        gossip_bytes_wf(g@),
{
    assert(vstd::std_specs::vec::spec_vec_len(&g.rumors) == g.rumors@.len());
    assert(g@.rumors.len() == g.rumors@.len());
    assert(g@.callee.len() == 32 && g@.caller.len() == 32);
    assert forall|i: int| 0 <= i < g@.rumors.len() implies rumor_bytes_wf(
        #[trigger] g@.rumors[i],
    ) by {
        let r = g.rumors@[i];
        lemma_state_view_wf(&r.state);
        assert(vstd::std_specs::vec::spec_vec_len(&r.content.value) == r.content.value@.len());
        assert(r.content@.len() <= usize::MAX);
        assert(g@.rumors[i] == r@);
    }
}

// ---------------------------------------------------------------------------
// Executable encoder
// ---------------------------------------------------------------------------

pub(crate) fn write_u64(out: &mut Vec<u8>, n: u64)
    ensures
        final(out)@ == old(out)@ + u64_le(n),
{
    out.push((n & 0xff) as u8);
    out.push(((n >> 8) & 0xff) as u8);
    out.push(((n >> 16) & 0xff) as u8);
    out.push(((n >> 24) & 0xff) as u8);
    out.push(((n >> 32) & 0xff) as u8);
    out.push(((n >> 40) & 0xff) as u8);
    out.push(((n >> 48) & 0xff) as u8);
    out.push(((n >> 56) & 0xff) as u8);
    proof {
        assert(out@ =~= old(out)@ + u64_le(n));
    }
}

#[verifier::loop_isolation(false)]
fn write_raw(out: &mut Vec<u8>, b: &Vec<u8>)
    ensures
        final(out)@ == old(out)@ + b@,
{
    let mut i: usize = 0;
    while i < b.len()
        invariant
            0 <= i <= b.len(),
            out@ == old(out)@ + b@.take(i as int),
        decreases b.len() - i,
    {
        out.push(b[i]);
        proof {
            assert(old(out)@ + b@.take(i as int + 1) =~= (old(out)@ + b@.take(i as int)).push(
                b@[i as int],
            ));
        }
        i += 1;
    }
    proof {
        assert(old(out)@ + b@.take(b.len() as int) =~= old(out)@ + b@);
    }
}

#[verifier::loop_isolation(false)]
fn write_id(out: &mut Vec<u8>, id: &Id)
    ensures
        final(out)@ == old(out)@ + id@,
{
    let mut i: usize = 0;
    while i < 32
        invariant
            0 <= i <= 32,
            out@ == old(out)@ + id@.take(i as int),
        decreases 32 - i,
    {
        out.push(id.bytes[i]);
        proof {
            assert(old(out)@ + id@.take(i as int + 1) =~= (old(out)@ + id@.take(i as int)).push(
                id@[i as int],
            ));
        }
        i += 1;
    }
    proof {
        assert(old(out)@ + id@.take(32) =~= old(out)@ + id@);
    }
}

pub(crate) fn write_bytes_field(out: &mut Vec<u8>, b: &Vec<u8>)
    ensures
        final(out)@ == old(out)@ + enc_bytes(b@),
{
    write_u64(out, b.len() as u64);
    write_raw(out, b);
    proof {
        assert(out@ =~= old(out)@ + enc_bytes(b@));
    }
}

#[verifier::loop_isolation(false)]
fn write_state(out: &mut Vec<u8>, s: &State)
    ensures
        final(out)@ == old(out)@ + enc_state(s@),
{
    match s {
        State::B { round, age, player_ages } => {
            out.push(0u8);
            out.push(round.value);
            out.push(age.value);
            write_u64(out, player_ages.len() as u64);
            let ghost mid = out@;
            let ghost pav = ages_view(player_ages@);
            let mut i: usize = 0;
            while i < player_ages.len()
                invariant
                    0 <= i <= player_ages.len(),
                    out@ == mid + enc_age_pairs(pav.take(i as int)),
                decreases player_ages.len() - i,
            {
                let ghost before = out@;
                write_id(out, &player_ages[i].0);
                out.push(player_ages[i].1.value);
                proof {
                    assert(out@ =~= before + enc_age_pair(pav[i as int]));
                    lemma_enc_age_pairs_snoc(pav, i as int);
                    assert(out@ =~= mid + enc_age_pairs(pav.take(i as int + 1)));
                }
                i += 1;
            }
            proof {
                assert(pav.take(pav.len() as int) =~= pav);
                assert(out@ =~= old(out)@ + enc_state(s@));
            }
        },
        State::C { rounds_in_state_b, round } => {
            out.push(1u8);
            out.push(rounds_in_state_b.value);
            out.push(round.value);
            proof {
                assert(out@ =~= old(out)@ + enc_state(s@));
            }
        },
        State::D => {
            out.push(2u8);
            proof {
                assert(out@ =~= old(out)@ + enc_state(s@));
            }
        },
    }
}

/// Encoding one more entry extends the encoding of the prefix.
proof fn lemma_enc_age_pairs_snoc(s: Seq<(Seq<u8>, int)>, i: int)
    requires
        0 <= i < s.len(),
    ensures
        enc_age_pairs(s.take(i + 1)) == enc_age_pairs(s.take(i)) + enc_age_pair(s[i]),
    decreases i,
{
    if i == 0 {
        assert(s.take(1).drop_first() =~= s.take(0));
        assert(s.take(1).first() == s[0]);
        assert(enc_age_pairs(s.take(0)) =~= Seq::empty());
        assert(enc_age_pairs(s.take(1)) =~= enc_age_pair(s[0]));
        assert(enc_age_pairs(s.take(0)) + enc_age_pair(s[0]) =~= enc_age_pair(s[0]));
    } else {
        lemma_enc_age_pairs_snoc(s.drop_first(), i - 1);
        assert(s.take(i + 1).first() == s.first());
        assert(s.take(i + 1).drop_first() =~= s.drop_first().take(i));
        assert(s.take(i).first() == s.first());
        assert(s.take(i).drop_first() =~= s.drop_first().take(i - 1));
        assert(s.drop_first()[i - 1] == s[i]);
        assert(enc_age_pair(s.first()) + (enc_age_pairs(s.drop_first().take(i - 1)) + enc_age_pair(
            s[i],
        )) =~= (enc_age_pair(s.first()) + enc_age_pairs(s.drop_first().take(i - 1))) + enc_age_pair(
            s[i],
        ));
    }
}

/// Encoding one more rumor extends the encoding of the prefix.
proof fn lemma_enc_rumors_snoc(s: Seq<RumorV>, i: int)
    requires
        0 <= i < s.len(),
    ensures
        enc_rumors(s.take(i + 1)) == enc_rumors(s.take(i)) + enc_rumor(s[i]),
    decreases i,
{
    if i == 0 {
        assert(s.take(1).drop_first() =~= s.take(0));
        assert(s.take(1).first() == s[0]);
        assert(enc_rumors(s.take(0)) =~= Seq::empty());
        assert(enc_rumors(s.take(1)) =~= enc_rumor(s[0]));
        assert(enc_rumors(s.take(0)) + enc_rumor(s[0]) =~= enc_rumor(s[0]));
    } else {
        lemma_enc_rumors_snoc(s.drop_first(), i - 1);
        assert(s.take(i + 1).first() == s.first());
        assert(s.take(i + 1).drop_first() =~= s.drop_first().take(i));
        assert(s.take(i).first() == s.first());
        assert(s.take(i).drop_first() =~= s.drop_first().take(i - 1));
        assert(s.drop_first()[i - 1] == s[i]);
        assert(enc_rumor(s.first()) + (enc_rumors(s.drop_first().take(i - 1)) + enc_rumor(s[i]))
            =~= (enc_rumor(s.first()) + enc_rumors(s.drop_first().take(i - 1))) + enc_rumor(s[i]));
    }
}

/// Encode a gossip message for the wire.
#[verifier::loop_isolation(false)]
pub fn encode_gossip(g: &Gossip) -> (r: Vec<u8>)
    ensures
        r@ == enc_gossip(g@),
{
    let mut out: Vec<u8> = Vec::new();
    write_id(&mut out, &g.callee.id);
    write_id(&mut out, &g.caller.id);
    write_u64(&mut out, g.rumors.len() as u64);
    let ghost mid = out@;
    let ghost rv = g@.rumors;
    let mut i: usize = 0;
    while i < g.rumors.len()
        invariant
            0 <= i <= g.rumors.len(),
            out@ == mid + enc_rumors(rv.take(i as int)),
        decreases g.rumors.len() - i,
    {
        let ghost before = out@;
        write_bytes_field(&mut out, &g.rumors[i].content.value);
        write_state(&mut out, &g.rumors[i].state);
        proof {
            assert(g@.rumors[i as int] == g.rumors@[i as int]@);
            assert(out@ =~= before + enc_rumor(rv[i as int]));
            lemma_enc_rumors_snoc(rv, i as int);
            assert(out@ =~= mid + enc_rumors(rv.take(i as int + 1)));
        }
        i += 1;
    }
    proof {
        assert(rv.take(rv.len() as int) =~= rv);
        assert(out@ =~= enc_gossip(g@));
    }
    out
}

// ---------------------------------------------------------------------------
// Executable decoder
// ---------------------------------------------------------------------------

fn read_u64(b: &Vec<u8>, i: usize) -> (r: Option<(u64, usize)>)
    requires
        i <= b@.len(),
    ensures
        match r {
            Some(p) => i <= p.1 <= b@.len() && parse_u64(b@.skip(i as int)) == Some(
                (p.0, b@.skip(p.1 as int)),
            ),
            None => parse_u64(b@.skip(i as int)) is None,
        },
{
    if b.len() - i >= 8 {
        let v: u64 = (b[i] as u64) | (b[i + 1] as u64) << 8 | (b[i + 2] as u64) << 16 | (b[i + 3]
            as u64) << 24 | (b[i + 4] as u64) << 32 | (b[i + 5] as u64) << 40 | (b[i + 6] as u64)
            << 48 | (b[i + 7] as u64) << 56;
        proof {
            assert(b@.skip(i as int).skip(8) =~= b@.skip(i as int + 8));
        }
        Some((v, i + 8))
    } else {
        None
    }
}

#[verifier::loop_isolation(false)]
fn read_id(b: &Vec<u8>, i: usize) -> (r: Option<(Id, usize)>)
    requires
        i <= b@.len(),
    ensures
        match r {
            Some(p) => i <= p.1 <= b@.len() && b@.skip(i as int).len() >= 32 && p.0@ == b@.skip(
                i as int,
            ).take(32) && p.1 == i + 32,
            None => b@.skip(i as int).len() < 32,
        },
{
    if b.len() - i >= 32 {
        let mut arr: [u8; 32] = [0u8; 32];
        let mut k: usize = 0;
        while k < 32
            invariant
                0 <= k <= 32,
                i + 32 <= b@.len(),
                forall|t: int| 0 <= t < k ==> arr@[t] == b@[i + t],
            decreases 32 - k,
        {
            arr[k] = b[i + k];
            k += 1;
        }
        proof {
            assert(arr@ =~= b@.skip(i as int).take(32));
        }
        Some((Id::new(arr), i + 32))
    } else {
        None
    }
}

#[verifier::loop_isolation(false)]
fn read_age_pairs(b: &Vec<u8>, i: usize, n: u64) -> (r: Option<(Vec<(Id, Age)>, usize)>)
    requires
        i <= b@.len(),
    ensures
        match r {
            Some(p) => i <= p.1 <= b@.len() && parse_age_pairs(b@.skip(i as int), n as nat)
                == Some((ages_view(p.0@), b@.skip(p.1 as int))),
            None => parse_age_pairs(b@.skip(i as int), n as nat) is None,
        },
{
    let mut acc: Vec<(Id, Age)> = Vec::new();
    let mut cur: usize = i;
    let mut k: u64 = 0;
    while k < n
        invariant
            i <= cur <= b@.len(),
            0 <= k <= n,
            parse_age_pairs(b@.skip(i as int), n as nat) == spec_combine_pairs(
                ages_view(acc@),
                parse_age_pairs(b@.skip(cur as int), (n - k) as nat),
            ),
        decreases n - k,
    {
        let ghost pre = b@.skip(cur as int);
        if b.len() - cur < 33 {
            proof {
                assert(parse_age_pair(pre) is None);
            }
            return None;
        }
        let id = match read_id(b, cur) {
            Some(p) => p.0,
            None => { return None; },
        };
        let age = Age::from(b[cur + 32]);
        let ghost acc0 = ages_view(acc@);
        acc.push((id, age));
        proof {
            assert(ages_view(acc@) =~= acc0.push((id@, age.value as int)));
            assert(parse_age_pair(pre) == Some(
                ((id@, age.value as int), b@.skip(cur as int + 33)),
            ));
            lemma_combine_pairs_shift(
                acc0,
                (id@, age.value as int),
                b@.skip(cur as int + 33),
                (n - k - 1) as nat,
            );
        }
        cur = cur + 33;
        k = k + 1;
    }
    proof {
        assert(parse_age_pairs(b@.skip(cur as int), 0) == Some(
            (Seq::<(Seq<u8>, int)>::empty(), b@.skip(cur as int)),
        ));
        assert(ages_view(acc@) + Seq::<(Seq<u8>, int)>::empty() =~= ages_view(acc@));
    }
    Some((acc, cur))
}

/// Prepend already-parsed entries to the result of parsing the remainder.
pub open spec fn spec_combine_pairs(
    a: Seq<(Seq<u8>, int)>,
    r: Option<(Seq<(Seq<u8>, int)>, Seq<u8>)>,
) -> Option<(Seq<(Seq<u8>, int)>, Seq<u8>)> {
    match r {
        Some((s, rest)) => Some((a + s, rest)),
        None => None,
    }
}

proof fn lemma_combine_pairs_shift(
    a: Seq<(Seq<u8>, int)>,
    p: (Seq<u8>, int),
    b: Seq<u8>,
    n: nat,
)
    ensures
        spec_combine_pairs(a, parse_age_pairs_cons(p, parse_age_pairs(b, n)))
            == spec_combine_pairs(a.push(p), parse_age_pairs(b, n)),
{
    match parse_age_pairs(b, n) {
        Some((s, rest)) => {
            assert(a + (seq![p] + s) =~= a.push(p) + s);
        },
        None => {},
    }
}

/// One parsed entry followed by the rest.
pub open spec fn parse_age_pairs_cons(
    p: (Seq<u8>, int),
    r: Option<(Seq<(Seq<u8>, int)>, Seq<u8>)>,
) -> Option<(Seq<(Seq<u8>, int)>, Seq<u8>)> {
    match r {
        Some((s, rest)) => Some((seq![p] + s, rest)),
        None => None,
    }
}

#[verifier::loop_isolation(false)]
fn read_state(b: &Vec<u8>, i: usize) -> (r: Option<(State, usize)>)
    requires
        i <= b@.len(),
    ensures
        match r {
            Some(p) => i <= p.1 <= b@.len() && parse_state(b@.skip(i as int)) == Some(
                (p.0@, b@.skip(p.1 as int)),
            ),
            None => parse_state(b@.skip(i as int)) is None,
        },
{
    let ghost pre = b@.skip(i as int);
    if b.len() - i < 1 {
        return None;
    }
    let tag = b[i];
    if tag == 0 {
        if b.len() - i < 3 {
            return None;
        }
        let round = b[i + 1];
        let age = b[i + 2];
        proof {
            assert(pre.skip(3) =~= b@.skip(i as int + 3));
        }
        let (n, j) = match read_u64(b, i + 3) {
            Some(p) => p,
            None => { return None; },
        };
        let (pa, j2) = match read_age_pairs(b, j, n) {
            Some(p) => p,
            None => { return None; },
        };
        let st = State::B { round: Round::from(round), age: Age::from(age), player_ages: pa };
        proof {
            assert(st@ == parse_state(pre)->Some_0.0);
        }
        Some((st, j2))
    } else if tag == 1 {
        if b.len() - i < 3 {
            return None;
        }
        proof {
            assert(pre.skip(3) =~= b@.skip(i as int + 3));
        }
        Some(
            (
                State::C {
                    rounds_in_state_b: Round::from(b[i + 1]),
                    round: Round::from(b[i + 2]),
                },
                i + 3,
            ),
        )
    } else if tag == 2 {
        proof {
            assert(pre.skip(1) =~= b@.skip(i as int + 1));
        }
        Some((State::D, i + 1))
    } else {
        None
    }
}

#[verifier::loop_isolation(false)]
pub(crate) fn read_bytes_field(b: &Vec<u8>, i: usize) -> (r: Option<(Vec<u8>, usize)>)
    requires
        i <= b@.len(),
    ensures
        match r {
            Some(p) => i <= p.1 <= b@.len() && parse_bytes(b@.skip(i as int)) == Some(
                (p.0@, b@.skip(p.1 as int)),
            ),
            None => parse_bytes(b@.skip(i as int)) is None,
        },
{
    let (n, j) = match read_u64(b, i) {
        Some(p) => p,
        None => { return None; },
    };
    if n > (b.len() - j) as u64 {
        return None;
    }
    let n_us: usize = n as usize;
    let mut out: Vec<u8> = Vec::new();
    let mut k: usize = 0;
    while k < n_us
        invariant
            0 <= k <= n_us,
            j + n_us <= b@.len(),
            out@ == b@.skip(j as int).take(k as int),
        decreases n_us - k,
    {
        out.push(b[j + k]);
        proof {
            assert(b@.skip(j as int).take(k as int + 1) =~= b@.skip(j as int).take(
                k as int,
            ).push(b@[j + k]));
        }
        k += 1;
    }
    proof {
        assert(b@.skip(j as int).skip(n as int) =~= b@.skip(j as int + n as int));
    }
    Some((out, j + n_us))
}

#[verifier::loop_isolation(false)]
fn read_rumors(b: &Vec<u8>, i: usize, n: u64) -> (r: Option<(Vec<Rumor>, usize)>)
    requires
        i <= b@.len(),
    ensures
        match r {
            Some(p) => i <= p.1 <= b@.len() && parse_rumors(b@.skip(i as int), n as nat) == Some(
                (p.0@.map_values(|x: Rumor| x@), b@.skip(p.1 as int)),
            ),
            None => parse_rumors(b@.skip(i as int), n as nat) is None,
        },
{
    let mut acc: Vec<Rumor> = Vec::new();
    let mut cur: usize = i;
    let mut k: u64 = 0;
    while k < n
        invariant
            i <= cur <= b@.len(),
            0 <= k <= n,
            parse_rumors(b@.skip(i as int), n as nat) == spec_combine_rumors(
                acc@.map_values(|x: Rumor| x@),
                parse_rumors(b@.skip(cur as int), (n - k) as nat),
            ),
        decreases n - k,
    {
        let ghost pre = b@.skip(cur as int);
        let (content, j) = match read_bytes_field(b, cur) {
            Some(p) => p,
            None => { return None; },
        };
        let (state, j2) = match read_state(b, j) {
            Some(p) => p,
            None => { return None; },
        };
        let ghost acc0 = acc@.map_values(|x: Rumor| x@);
        let rum = Rumor { content: Content::new(content), state };
        proof {
            assert(parse_rumor(pre) == Some((rum@, b@.skip(j2 as int))));
        }
        acc.push(rum);
        proof {
            assert(acc@.map_values(|x: Rumor| x@) =~= acc0.push(rum@));
            lemma_combine_rumors_shift(acc0, rum@, b@.skip(j2 as int), (n - k - 1) as nat);
        }
        cur = j2;
        k = k + 1;
    }
    proof {
        assert(parse_rumors(b@.skip(cur as int), 0) == Some(
            (Seq::<RumorV>::empty(), b@.skip(cur as int)),
        ));
        assert(acc@.map_values(|x: Rumor| x@) + Seq::<RumorV>::empty() =~= acc@.map_values(
            |x: Rumor| x@,
        ));
    }
    Some((acc, cur))
}

/// Prepend already-parsed rumors to the result of parsing the remainder.
pub open spec fn spec_combine_rumors(
    a: Seq<RumorV>,
    r: Option<(Seq<RumorV>, Seq<u8>)>,
) -> Option<(Seq<RumorV>, Seq<u8>)> {
    match r {
        Some((s, rest)) => Some((a + s, rest)),
        None => None,
    }
}

proof fn lemma_combine_rumors_shift(a: Seq<RumorV>, p: RumorV, b: Seq<u8>, n: nat)
    ensures
        spec_combine_rumors(a, parse_rumors_cons(p, parse_rumors(b, n))) == spec_combine_rumors(
            a.push(p),
            parse_rumors(b, n),
        ),
{
    match parse_rumors(b, n) {
        Some((s, rest)) => {
            assert(a + (seq![p] + s) =~= a.push(p) + s);
        },
        None => {},
    }
}

/// One parsed rumor followed by the rest.
pub open spec fn parse_rumors_cons(
    p: RumorV,
    r: Option<(Seq<RumorV>, Seq<u8>)>,
) -> Option<(Seq<RumorV>, Seq<u8>)> {
    match r {
        Some((s, rest)) => Some((seq![p] + s, rest)),
        None => None,
    }
}

/// Decode a whole buffer as one gossip message; `None` on malformed or
/// trailing bytes.
#[verifier::loop_isolation(false)]
pub fn decode_gossip(b: &Vec<u8>) -> (r: Option<Gossip>)
    ensures
        match r {
            Some(g) => gossip_of_bytes(b@) == Some(g@),
            None => gossip_of_bytes(b@) is None,
        },
{
    proof {
        assert(b@.skip(0) =~= b@);
    }
    if b.len() < 64 {
        return None;
    }
    let (callee, i1) = match read_id(b, 0) {
        Some(p) => p,
        None => { return None; },
    };
    let (caller, i2) = match read_id(b, 32) {
        Some(p) => p,
        None => { return None; },
    };
    proof {
        assert(b@.skip(32).take(32) =~= b@.take(64).skip(32));
        assert(caller@ =~= b@.skip(32).take(32));
    }
    let (n, i3) = match read_u64(b, 64) {
        Some(p) => p,
        None => { return None; },
    };
    let (rumors, i4) = match read_rumors(b, i3, n) {
        Some(p) => p,
        None => { return None; },
    };
    if i4 != b.len() {
        proof {
            assert(b@.skip(i4 as int).len() > 0);
        }
        return None;
    }
    let g = Gossip {
        callee: ObliviousPlayer { id: callee },
        rumors,
        caller: InformedPlayer { id: caller },
    };
    proof {
        assert(b@.skip(i4 as int).len() == 0);
        assert(g@ == gossip_of_bytes(b@)->Some_0);
    }
    Some(g)
}

} // verus!
