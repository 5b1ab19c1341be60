//! The gossip stepper: a cooperative task wrapping the engine.
//!
//! On each tick it drains the client command input, drains the peer inbox
//! (feeding the engine), and — only on a tick that received no frames —
//! lets the engine produce one outbound push. A tick spent answering peers
//! does not also originate a push, so a tick with an empty inbox produces at
//! most one outbound frame, and a tick with inbound frames produces at most
//! one response per frame.

use vstd::prelude::*;

use crate::codec::gossip_of_bytes;
use crate::crypto::Keys;
use crate::error::Error;
use crate::gossip::{Content, GossipV};
use crate::gossiping::{rumors_monotone, Gossiping, GossipingV};
use crate::id::Id;
use crate::transmission::{spec_deserialise, spec_is_push, spec_payload, spec_serialise, Transmission};

verus! {

/// A command sent by the user of this node.
pub enum ClientCmd {
    /// Starts a new rumor.
    NewRumor(Content),
    /// Shuts down this instance at the next tick boundary.
    Shutdown,
}

/// The communication interface from the user to this node. Any transport
/// that can yield commands one at a time can implement it.
pub trait ClientChannel {
    /// The next pending command, if any.
    fn read_from_client(&mut self) -> Option<ClientCmd>;
}

/// The communication interface from other players to this node. Any
/// transport that can deliver complete frames with the sender's public key
/// can implement it.
pub trait PlayerIncomingChannel {
    /// All frames that have arrived since the last call, each with the
    /// sender's 32 public-key bytes.
    fn receive_from_players(&mut self) -> Vec<([u8; 32], Vec<u8>)>;
}

/// The communication interface from this node to other players. Sending is
/// non-blocking and may fail transiently; the protocol tolerates loss.
pub trait PlayerOutgoingChannels {
    /// Send one frame, tagged with our public key, to the peer with the
    /// given identity.
    fn send_to_player(&mut self, id: Id, transmission: ([u8; 32], Vec<u8>)) -> Result<(), Error>;
}

/// The frame deserialises under its attached key to a push carrying rumors
/// (and so must be answered).
pub open spec fn frame_demands_response(frame: ([u8; 32], Vec<u8>)) -> bool {
    &&& spec_deserialise(frame.1@, frame.0@) is Ok
    &&& spec_is_push(spec_deserialise(frame.1@, frame.0@)->Ok_0)
    &&& gossip_of_bytes(spec_payload(spec_deserialise(frame.1@, frame.0@)->Ok_0)) is Some
    &&& gossip_of_bytes(spec_payload(spec_deserialise(frame.1@, frame.0@)->Ok_0))->Some_0.rumors.len()
        > 0
}

/// The caller named inside the frame's gossip.
pub open spec fn frame_caller(frame: ([u8; 32], Vec<u8>)) -> Seq<u8> {
    gossip_of_bytes(spec_payload(spec_deserialise(frame.1@, frame.0@)->Ok_0))->Some_0.caller
}

/// The outbound entry is a frame this node signed over some gossip, and it
/// is addressed to that gossip's callee.
pub open spec fn signed_frame_for(entry: (Id, Vec<u8>), sk: Seq<u8>) -> bool {
    exists|gv: GossipV|
        entry.0@ == gv.callee && (entry.1@ == spec_serialise(gv, false, sk) || entry.1@
            == spec_serialise(gv, true, sk))
}

/// Carries out gossiping: owns the engine, this node's keys, and the three
/// channels that couple it to the outside.
pub struct GossipStepper<C, I, O> {
    keys: Keys,
    gossiping: Gossiping,
    client: C,
    listener: I,
    player_channels: O,
    is_processing: bool,
    is_aborted: bool,
}

impl<C: ClientChannel, I: PlayerIncomingChannel, O: PlayerOutgoingChannels> GossipStepper<
    C,
    I,
    O,
> {
    /// The engine's invariant holds.
    pub closed spec fn wf(&self) -> bool {
        self.gossiping.wf()
    }

    /// Whether a `Shutdown` command has taken effect on this node.
    pub closed spec fn aborted(&self) -> bool {
        self.is_aborted
    }

    /// The engine's mathematical value.
    pub closed spec fn engine(&self) -> GossipingV {
        self.gossiping@
    }

    /// Whether this tick already received frames (and so must not push).
    pub closed spec fn busy(&self) -> bool {
        self.is_processing
    }

    /// The secret half of this node's signing identity.
    pub closed spec fn signing_key(&self) -> Seq<u8> {
        self.keys.secret@
    }

    /// A stepper for a node with the given identity keys, engine and
    /// channels; it starts running, not aborted.
    pub fn new(keys: Keys, gossiping: Gossiping, client: C, listener: I, player_channels: O) -> (r:
        Self)
        requires
            gossiping.wf(),
        ensures
            r.wf(),
            !r.aborted(),
            !r.busy(),
            r.engine() == gossiping@,
    {
        Self {
            keys,
            gossiping,
            client,
            listener,
            player_channels,
            is_processing: false,
            is_aborted: false,
        }
    }

    /// The identity of this instance.
    pub fn our_id(&self) -> (r: Id)
        ensures
            r@ == self.engine().our_id,
    {
        self.gossiping.our_id()
    }

    /// Add a player to the gossip cluster, replacing the outgoing channels.
    pub fn add_player(&mut self, public_key: [u8; 32], channels: O) -> (r: Result<(), Error>)
        requires
            old(self).wf(),
        ensures
            final(self).wf(),
            r is Ok,
            final(self).aborted() == old(self).aborted(),
            final(self).engine().rumors == old(self).engine().rumors,
    {
        let id = Id::new(public_key);
        let r = self.gossiping.add_player(id);
        self.player_channels = channels;
        r
    }

    /// Remove a player from the gossip cluster.
    pub fn remove_player(&mut self, public_key: [u8; 32])
        requires
            old(self).wf(),
        ensures
            final(self).wf(),
            final(self).aborted() == old(self).aborted(),
            final(self).engine().rumors == old(self).engine().rumors,
    {
        let id = Id::new(public_key);
        self.gossiping.remove_player(id);
    }

    fn abort(&self) -> (r: bool)
        ensures
            r == self.aborted(),
    {
        self.is_aborted
    }

    /// Drain the client channel, dispatching each pending command in
    /// submission order: a rumor is started on `NewRumor` (a duplicate is
    /// reported by the engine and dropped), `Shutdown` flips this node to
    /// aborted. Every loop here needs a termination measure, so the drain is
    /// bounded by the address space — more pending commands than that cannot
    /// be held in memory.
    fn read_from_client(&mut self)
        requires
            old(self).wf(),
        ensures
            final(self).wf(),
            rumors_monotone(old(self).engine().rumors, final(self).engine().rumors),
            old(self).aborted() ==> final(self).aborted(),
            final(self).busy() == old(self).busy(),
            final(self).signing_key() == old(self).signing_key(),
    {
        let mut budget: usize = usize::MAX;
        while budget > 0
            invariant
                self.wf(),
                rumors_monotone(old(self).engine().rumors, self.engine().rumors),
                old(self).aborted() ==> self.aborted(),
                self.busy() == old(self).busy(),
                self.signing_key() == old(self).signing_key(),
            decreases budget,
        {
            let ghost mid = self.engine().rumors;
            match self.client.read_from_client() {
                Some(ClientCmd::NewRumor(content)) => {
                    let _ = self.gossiping.initiate_rumor(content);
                    proof {
                        crate::gossiping::lemma_rumors_monotone_trans(
                            old(self).engine().rumors,
                            mid,
                            self.engine().rumors,
                        );
                    }
                },
                Some(ClientCmd::Shutdown) => {
                    self.is_aborted = true;
                },
                None => {
                    return ;
                },
            }
            budget -= 1;
        }
    }

    /// Compute every frame this tick sends: one response at most per inbound
    /// frame and, only on a tick with an empty inbox, at most one push. A
    /// frame that deserialises under its key to a push carrying rumors is
    /// always answered, with a response addressed to that gossip's caller;
    /// and every computed frame is one this node signed over a gossip,
    /// addressed to that gossip's callee.
    fn compute_tick(&mut self, frames: &Vec<([u8; 32], Vec<u8>)>) -> (outs: Vec<(Id, Vec<u8>)>)
        requires
            old(self).wf(),
            old(self).busy() == (frames@.len() > 0),
        ensures
            final(self).wf(),
            final(self).aborted() == old(self).aborted(),
            rumors_monotone(old(self).engine().rumors, final(self).engine().rumors),
            outs@.len() <= if frames@.len() == 0 {
                1int
            } else {
                frames@.len() as int
            },
            forall|fi: int|
                0 <= fi < frames@.len() && frame_demands_response(#[trigger] frames@[fi])
                    ==> exists|oi: int|
                    0 <= oi < outs@.len() && (#[trigger] outs@[oi]).0@ == frame_caller(
                        frames@[fi],
                    ),
            forall|oi: int|
                0 <= oi < outs@.len() ==> signed_frame_for(
                    #[trigger] outs@[oi],
                    old(self).signing_key(),
                ),
    {
        let mut outs: Vec<(Id, Vec<u8>)> = Vec::new();
        let mut i: usize = 0;
        while i < frames.len()
            invariant
                0 <= i <= frames.len(),
                self.wf(),
                self.aborted() == old(self).aborted(),
                self.busy() == old(self).busy(),
                self.signing_key() == old(self).signing_key(),
                rumors_monotone(old(self).engine().rumors, self.engine().rumors),
                outs@.len() <= i,
                forall|fi: int|
                    0 <= fi < i && frame_demands_response(#[trigger] frames@[fi]) ==> exists|
                        oi: int,
                    |
                        0 <= oi < outs@.len() && (#[trigger] outs@[oi]).0@ == frame_caller(
                            frames@[fi],
                        ),
                forall|oi: int|
                    0 <= oi < outs@.len() ==> signed_frame_for(
                        #[trigger] outs@[oi],
                        old(self).signing_key(),
                    ),
            decreases frames.len() - i,
        {
            let ghost mid = self.engine().rumors;
            let ghost outs0 = outs@;
            let transmission = match Transmission::deserialise(&frames[i].1, &frames[i].0) {
                Ok(t) => t,
                Err(_) => {
                    proof {
                        assert(!frame_demands_response(frames@[i as int]));
                    }
                    i += 1;
                    continue ;
                },
            };
            let (gossip, is_push) = match transmission.get_value() {
                Ok(p) => p,
                Err(_) => {
                    proof {
                        assert(!frame_demands_response(frames@[i as int]));
                    }
                    i += 1;
                    continue ;
                },
            };
            if let Some(response) = self.gossiping.receive_gossip(&gossip, is_push) {
                let bytes = Transmission::serialise(&response, false, &self.keys);
                proof {
                    assert(bytes@ == spec_serialise(response@, false, self.keys.secret@));
                }
                outs.push((response.callee.id, bytes));
                proof {
                    let entry = outs@[outs@.len() - 1];
                    assert(entry.0@ == response@.callee);
                    assert(signed_frame_for(entry, old(self).signing_key()));
                    if frame_demands_response(frames@[i as int]) {
                        assert(response@.callee == gossip@.caller);
                        assert(entry.0@ == frame_caller(frames@[i as int]));
                    }
                }
            } else {
                proof {
                    assert(!frame_demands_response(frames@[i as int]));
                }
            }
            proof {
                crate::gossiping::lemma_rumors_monotone_trans(
                    old(self).engine().rumors,
                    mid,
                    self.engine().rumors,
                );
                assert forall|fi: int|
                    0 <= fi < i + 1 && frame_demands_response(#[trigger] frames@[fi])
                    implies exists|oi: int|
                    0 <= oi < outs@.len() && (#[trigger] outs@[oi]).0@ == frame_caller(
                        frames@[fi],
                    ) by {
                    if fi < i {
                        let oi = choose|oi: int|
                            0 <= oi < outs0.len() && (#[trigger] outs0[oi]).0@ == frame_caller(
                                frames@[fi],
                            );
                        assert(outs@[oi] == outs0[oi]);
                    }
                }
            }
            i += 1;
        }
        if !self.is_processing {
            let ghost mid = self.engine().rumors;
            if let Some(gossip) = self.gossiping.collect_gossip() {
                let bytes = Transmission::serialise(&gossip, true, &self.keys);
                proof {
                    assert(bytes@ == spec_serialise(gossip@, true, self.keys.secret@));
                }
                outs.push((gossip.callee.id, bytes));
                proof {
                    let entry = outs@[outs@.len() - 1];
                    assert(entry.0@ == gossip@.callee);
                    assert(signed_frame_for(entry, old(self).signing_key()));
                }
            }
            proof {
                crate::gossiping::lemma_rumors_monotone_trans(
                    old(self).engine().rumors,
                    mid,
                    self.engine().rumors,
                );
            }
        }
        outs
    }

    /// One cooperative tick. Reports `true` once the task is complete
    /// (aborted); otherwise it drains the client, integrates every inbound
    /// frame, sends the computed responses — or, on a quiet tick, at most
    /// one push — and reports `false` (not ready).
    #[verifier::loop_isolation(false)]
    pub fn step(&mut self) -> (done: bool)
        requires
            old(self).wf(),
        ensures
            final(self).wf(),
            done == old(self).aborted(),
            old(self).aborted() ==> final(self).engine() == old(self).engine(),
            rumors_monotone(old(self).engine().rumors, final(self).engine().rumors),
    {
        if self.abort() {
            return true;
        }
        self.read_from_client();
        let ghost mid = self.engine().rumors;
        let frames = self.listener.receive_from_players();
        self.is_processing = frames.len() > 0;
        let outs = self.compute_tick(&frames);
        proof {
            crate::gossiping::lemma_rumors_monotone_trans(
                old(self).engine().rumors,
                mid,
                self.engine().rumors,
            );
        }
        let mut i: usize = 0;
        while i < outs.len()
            invariant
                0 <= i <= outs.len(),
                self.wf(),
                rumors_monotone(old(self).engine().rumors, self.engine().rumors),
            decreases outs.len() - i,
        {
            let target = outs[i].0;
            let payload = clone_payload(&outs[i].1);
            let _ = self.player_channels.send_to_player(target, (self.keys.public, payload));
            i += 1;
        }
        false
    }
}

/// A byte-for-byte copy of an outbound payload.
fn clone_payload(v: &Vec<u8>) -> (r: Vec<u8>)
    ensures
        r@ == v@,
{
    crate::gossip::clone_bytes(v)
}

} // verus!
