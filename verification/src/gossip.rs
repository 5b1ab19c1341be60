//! The messages and participants of a gossip exchange.

use vstd::prelude::*;

use crate::id::Id;
use crate::state::{State, StateV};

verus! {

/// An opaque byte payload being disseminated.
#[derive(Debug)]
pub struct Content {
    pub value: Vec<u8>,
}

impl View for Content {
    type V = Seq<u8>;

    open spec fn view(&self) -> Seq<u8> {
        self.value@
    }
}

impl Content {
    pub fn new(value: Vec<u8>) -> (r: Content)
        ensures
            r@ == value@,
    {
        Content { value }
    }

    /// A copy of this content with the same bytes.
    pub fn duplicate(&self) -> (r: Content)
        ensures
            r@ == self@,
    {
        Content { value: clone_bytes(&self.value) }
    }
}

/// A byte-for-byte copy of a byte vector.
pub fn clone_bytes(v: &Vec<u8>) -> (r: Vec<u8>)
    ensures
        r@ == v@,
{
    let mut r: Vec<u8> = Vec::new();
    let mut i: usize = 0;
    while i < v.len()
        invariant
            0 <= i <= v.len(),
            r@ == v@.take(i as int),
        decreases v.len() - i,
    {
        r.push(v[i]);
        proof {
            assert(r@ =~= v@.take(i as int + 1));
        }
        i += 1;
    }
    proof {
        assert(r@ =~= v@);
    }
    r
}

/// A participant in the gossip cluster.
#[derive(Clone, Copy, Debug, PartialEq, Eq, PartialOrd, Ord)]
pub struct Player {
    pub id: Id,
}

impl View for Player {
    type V = Seq<u8>;

    open spec fn view(&self) -> Seq<u8> {
        self.id@
    }
}

/// The sender's role in an exchange: it already holds the rumors it sends.
#[derive(Clone, Copy, Debug, PartialEq, Eq, PartialOrd, Ord)]
pub struct InformedPlayer {
    pub id: Id,
}

impl View for InformedPlayer {
    type V = Seq<u8>;

    open spec fn view(&self) -> Seq<u8> {
        self.id@
    }
}

/// The recipient's role in an exchange: the sender believes it lacks the
/// rumors it is sent.
#[derive(Clone, Copy, Debug, PartialEq, Eq, PartialOrd, Ord)]
pub struct ObliviousPlayer {
    pub id: Id,
}

impl View for ObliviousPlayer {
    type V = Seq<u8>;

    open spec fn view(&self) -> Seq<u8> {
        self.id@
    }
}

/// The mathematical value of a rumor entry.
pub struct RumorV {
    pub content: Seq<u8>,
    pub state: StateV,
}

/// One rumor as carried inside a gossip message: its payload and the
/// sender's state for it.
#[derive(Debug)]
pub struct Rumor {
    pub content: Content,
    pub state: State,
}

impl View for Rumor {
    type V = RumorV;

    open spec fn view(&self) -> RumorV {
        RumorV { content: self.content@, state: self.state@ }
    }
}

/// The mathematical value of a gossip message.
pub struct GossipV {
    pub callee: Seq<u8>,
    pub caller: Seq<u8>,
    pub rumors: Seq<RumorV>,
}

/// A single peer-to-peer message carrying rumors from `caller` to `callee`.
/// Used both for pushes and for responses; the discriminator lives in the
/// outer transmission frame.
#[derive(Debug)]
pub struct Gossip {
    pub callee: ObliviousPlayer,
    pub rumors: Vec<Rumor>,
    pub caller: InformedPlayer,
}

impl View for Gossip {
    type V = GossipV;

    open spec fn view(&self) -> GossipV {
        GossipV {
            callee: self.callee@,
            caller: self.caller@,
            rumors: self.rumors@.map_values(|r: Rumor| r@),
        }
    }
}

} // verus!
