use std::cell::RefCell;
use std::collections::VecDeque;
use std::rc::Rc;

use gossipkit::crypto::Keys;
use gossipkit::error::Error;
use gossipkit::gossip::{Content, Gossip, InformedPlayer, ObliviousPlayer, Player, Rumor};
use gossipkit::gossiping::Gossiping;
use gossipkit::id::Id;
use gossipkit::state::State;
use gossipkit::stepper::{
    ClientChannel, ClientCmd, GossipStepper, PlayerIncomingChannel, PlayerOutgoingChannels,
};
use gossipkit::transmission::Transmission;

struct TestClient {
    cmds: VecDeque<ClientCmd>,
}

impl ClientChannel for TestClient {
    fn read_from_client(&mut self) -> Option<ClientCmd> {
        self.cmds.pop_front()
    }
}

struct TestInbox {
    frames: Rc<RefCell<VecDeque<([u8; 32], Vec<u8>)>>>,
}

impl PlayerIncomingChannel for TestInbox {
    fn receive_from_players(&mut self) -> Vec<([u8; 32], Vec<u8>)> {
        self.frames.borrow_mut().drain(..).collect()
    }
}

struct TestOutbox {
    sent: Rc<RefCell<Vec<(Id, ([u8; 32], Vec<u8>))>>>,
}

impl PlayerOutgoingChannels for TestOutbox {
    fn send_to_player(
        &mut self,
        id: Id,
        transmission: ([u8; 32], Vec<u8>),
    ) -> Result<(), Error> {
        self.sent.borrow_mut().push((id, transmission));
        Ok(())
    }
}

fn id_of(byte: u8) -> Id {
    Id::new([byte; 32])
}

/// A valid signed push from `keys` claiming the rumor named in `content`.
fn push_frame(keys: &Keys, callee: Id, content: &[u8]) -> ([u8; 32], Vec<u8>) {
    let gossip = Gossip {
        callee: ObliviousPlayer { id: callee },
        rumors: vec![Rumor {
            content: Content::new(content.to_vec()),
            state: State::new(),
        }],
        caller: InformedPlayer { id: Id::new(keys.public) },
    };
    (keys.public, Transmission::serialise(&gossip, true, keys))
}

#[test]
fn shutdown_completes_at_next_tick_boundary() {
    // The node observes Shutdown while a peer still has frames queued for
    // it: the current tick completes (and still processes its inbox), the
    // next tick reports the task done, and later frames never change its
    // state.
    let keys_a = Keys::from_secret([1u8; 32]);
    let keys_b = Keys::from_secret([2u8; 32]);
    let a_id = Id::new(keys_a.public);
    let b_id = Id::new(keys_b.public);

    let engine = Gossiping::new(a_id, vec![Player { id: b_id }]);
    let inbox = Rc::new(RefCell::new(VecDeque::new()));
    let sent = Rc::new(RefCell::new(Vec::new()));
    inbox
        .borrow_mut()
        .push_back(push_frame(&keys_b, a_id, b"pending"));

    let mut stepper = GossipStepper::new(
        keys_a,
        engine,
        TestClient { cmds: VecDeque::from(vec![ClientCmd::Shutdown]) },
        TestInbox { frames: inbox.clone() },
        TestOutbox { sent: sent.clone() },
    );

    // The tick that observes Shutdown still runs to completion: the pending
    // inbound rumor is integrated and answered.
    assert!(!stepper.step());
    assert_eq!(sent.borrow().len(), 1);

    // From the next tick boundary on, the task is complete.
    assert!(stepper.step());

    // Further sends from the peer pile up unread; ticking the completed
    // task neither reads them nor sends anything.
    inbox
        .borrow_mut()
        .push_back(push_frame(&keys_b, a_id, b"late"));
    assert!(stepper.step());
    assert_eq!(inbox.borrow().len(), 1);
    assert_eq!(sent.borrow().len(), 1);
}

#[test]
fn new_rumor_command_reaches_the_engine() {
    let keys_a = Keys::from_secret([3u8; 32]);
    let a_id = Id::new(keys_a.public);
    let engine = Gossiping::new(a_id, Vec::new());
    let inbox = Rc::new(RefCell::new(VecDeque::new()));
    let sent = Rc::new(RefCell::new(Vec::new()));
    let mut stepper = GossipStepper::new(
        keys_a,
        engine,
        TestClient {
            cmds: VecDeque::from(vec![ClientCmd::NewRumor(Content::new(b"news".to_vec()))]),
        },
        TestInbox { frames: inbox },
        TestOutbox { sent: sent.clone() },
    );
    assert!(!stepper.step());
    // No peers: nothing to send, but the rumor is recorded (the engine holds
    // it until peers are added).
    assert_eq!(sent.borrow().len(), 0);
}

#[test]
fn invalid_frames_are_dropped_not_fatal() {
    // A frame that fails to verify, or fails to decode, is dropped; the
    // stepper keeps running.
    let keys_a = Keys::from_secret([4u8; 32]);
    let keys_b = Keys::from_secret([5u8; 32]);
    let keys_z = Keys::from_secret([6u8; 32]);
    let a_id = Id::new(keys_a.public);
    let engine = Gossiping::new(a_id, Vec::new());
    let inbox = Rc::new(RefCell::new(VecDeque::new()));
    let sent = Rc::new(RefCell::new(Vec::new()));
    // A forged frame: signed by B but attributed to Z.
    let (_claimed, bytes) = push_frame(&keys_b, a_id, b"forged");
    inbox.borrow_mut().push_back((keys_z.public, bytes));
    // Garbage bytes.
    inbox.borrow_mut().push_back((keys_b.public, vec![1, 2, 3]));
    let mut stepper = GossipStepper::new(
        keys_a,
        engine,
        TestClient { cmds: VecDeque::new() },
        TestInbox { frames: inbox },
        TestOutbox { sent: sent.clone() },
    );
    assert!(!stepper.step());
    assert!(!stepper.step());
    assert_eq!(sent.borrow().len(), 0);
}

#[test]
fn a_tick_answers_each_push_with_one_response() {
    // One inbound push produces exactly one outbound response on that tick,
    // addressed to the caller, and no push goes out on a tick that received
    // frames.
    let keys_a = Keys::from_secret([7u8; 32]);
    let keys_b = Keys::from_secret([8u8; 32]);
    let a_id = Id::new(keys_a.public);
    let b_id = Id::new(keys_b.public);
    let engine = Gossiping::new(a_id, vec![Player { id: b_id }]);
    let inbox = Rc::new(RefCell::new(VecDeque::new()));
    let sent = Rc::new(RefCell::new(Vec::new()));
    inbox
        .borrow_mut()
        .push_back(push_frame(&keys_b, a_id, b"one"));
    let mut stepper = GossipStepper::new(
        keys_a,
        engine,
        TestClient { cmds: VecDeque::new() },
        TestInbox { frames: inbox },
        TestOutbox { sent: sent.clone() },
    );
    assert!(!stepper.step());
    assert_eq!(sent.borrow().len(), 1);
    assert_eq!(sent.borrow()[0].0.bytes, b_id.bytes);
    // The response is a valid frame under A's key and is not a push.
    let bytes = sent.borrow()[0].1 .1.clone();
    let t = Transmission::deserialise(&bytes, &sent.borrow()[0].1 .0).expect("verifies");
    let (_gossip, is_push) = t.get_value().expect("decodes");
    assert!(!is_push);
}

#[test]
fn client_queue_is_drained_in_one_tick() {
    // Several queued commands, Shutdown last: all are dispatched on the same
    // tick, so the very next tick reports the task done.
    let keys_a = Keys::from_secret([9u8; 32]);
    let a_id = Id::new(keys_a.public);
    let engine = Gossiping::new(a_id, Vec::new());
    let inbox = Rc::new(RefCell::new(VecDeque::new()));
    let sent = Rc::new(RefCell::new(Vec::new()));
    let mut stepper = GossipStepper::new(
        keys_a,
        engine,
        TestClient {
            cmds: VecDeque::from(vec![
                ClientCmd::NewRumor(Content::new(b"first".to_vec())),
                ClientCmd::NewRumor(Content::new(b"second".to_vec())),
                ClientCmd::Shutdown,
            ]),
        },
        TestInbox { frames: inbox },
        TestOutbox { sent: sent.clone() },
    );
    assert!(!stepper.step());
    assert!(stepper.step());
    assert_eq!(sent.borrow().len(), 0);
}
