use std::collections::BTreeMap;

use gossipkit::error::Error;
use gossipkit::gossip::{Content, Player};
use gossipkit::gossiping::Gossiping;
use gossipkit::id::Id;
use gossipkit::state::State;
use rand::RngExt;

fn random_id(rng: &mut impl RngExt) -> Id {
    let mut b = [0u8; 32];
    rng.fill(&mut b[..]);
    Id::new(b)
}

fn id_of(byte: u8) -> Id {
    Id::new([byte; 32])
}

fn create_network(node_count: u32) -> Vec<Gossiping> {
    let mut rng = rand::rng();
    let mut gossipers: Vec<Gossiping> = (0..node_count)
        .map(|_| Gossiping::new(random_id(&mut rng), Vec::new()))
        .collect();
    // Connect all the gossipers.
    for i in 0..(gossipers.len() - 1) {
        let lhs_id = gossipers[i].our_id();
        for j in (i + 1)..gossipers.len() {
            let rhs_id = gossipers[j].our_id();
            let _ = gossipers[j].add_player(lhs_id);
            let _ = gossipers[i].add_player(rhs_id);
        }
    }
    gossipers
}

#[test]
fn prove_of_stop() {
    let mut gossipers = create_network(20);
    let num_of_msgs = 100;

    let mut rng = rand::rng();

    let mut rumors: Vec<Content> = Vec::new();
    for _ in 0..num_of_msgs {
        let mut raw = [0u8; 20];
        rng.fill(&mut raw[..]);
        let raw_content = String::from_utf8_lossy(&raw).as_bytes().to_vec();
        rumors.push(Content::new(raw_content));
    }

    let mut rounds = 0;
    // Polling
    let mut processed = true;
    while processed {
        rounds += 1;
        processed = false;
        let mut messages = BTreeMap::new();
        // Call `collect_gossip()` on each node to gather a list of all push RPCs.
        for gossiper in gossipers.iter_mut() {
            if !rumors.is_empty() && rng.random::<bool>() {
                let rumor = rumors.pop().unwrap();
                let _ = gossiper.initiate_rumor(rumor);
            }
            if let Some(gossip) = gossiper.collect_gossip() {
                processed = true;
                let _ = messages.insert((gossiper.our_id(), gossip.callee.id), gossip);
            }
        }

        // Send all push RPCs and the corresponding pull RPCs.
        for ((src_id, dst_id), gossip) in messages {
            let mut v = BTreeMap::new();
            for node in gossipers.iter_mut() {
                if node.our_id() == src_id {
                    let _ = v.insert(src_id, node);
                } else if node.our_id() == dst_id {
                    let _ = v.insert(dst_id, node);
                }
            }
            let response = v.get_mut(&src_id).unwrap().receive_gossip(&gossip, true);
            if let Some(pull_msg) = response {
                assert!(v
                    .get_mut(&dst_id)
                    .unwrap()
                    .receive_gossip(&pull_msg, false)
                    .is_none());
            }
        }
    }

    let mut nodes_missed = 0;
    // Checking nodes missed the message.
    for gossiper in gossipers.iter() {
        if gossiper.rumors().len() as u32 != num_of_msgs {
            nodes_missed += 1;
        }
    }

    println!(
        "gossiping stopped after {:?} rounds, with {} nodes missed the message",
        rounds, nodes_missed
    );
}

#[test]
fn duplicate_origination_is_a_single_rumor() {
    // Originating the same content twice creates one progress record; the
    // second attempt is reported as misuse and changes nothing.
    let mut node = Gossiping::new(id_of(1), vec![Player { id: id_of(2) }]);
    assert!(node.initiate_rumor(Content::new(b"x".to_vec())).is_ok());
    assert_eq!(
        node.initiate_rumor(Content::new(b"x".to_vec())),
        Err(Error::ProtocolMisuse)
    );
    assert_eq!(node.rumors().len(), 1);
}

#[test]
fn empty_peer_set_holds_the_rumor() {
    // With no peers the rumor is still recorded, and no push is produced.
    let mut node = Gossiping::new(id_of(1), Vec::new());
    assert!(node.initiate_rumor(Content::new(b"solo".to_vec())).is_ok());
    assert_eq!(node.rumors().len(), 1);
    assert!(node.collect_gossip().is_none());
    assert!(node.collect_gossip().is_none());
}

#[test]
fn single_peer_round_caps_end_the_rumor() {
    // With one peer the cutoffs are all 1, so the very first advance takes
    // the rumor to D before any push goes out, and the peer stays listed as
    // oblivious.
    let mut node = Gossiping::new(id_of(1), vec![Player { id: id_of(2) }]);
    assert!(node.initiate_rumor(Content::new(b"solo".to_vec())).is_ok());
    assert!(node.collect_gossip().is_none());
    assert!(matches!(node.rumors()[0].1.state(), State::D));
    assert_eq!(node.rumors()[0].1.oblivious_players().len(), 1);
    assert!(node.collect_gossip().is_none());
}

#[test]
fn three_node_rumor_terminates_without_traffic() {
    // Three fully connected nodes: each sees two peers, so a rumor's round
    // cap is 1 and its first advance forces D. The originator's record
    // reaches D, nothing is ever put on the wire, and the peers stay in
    // their implicit initial phase for it.
    let mut nodes = create_network(3);
    nodes[0]
        .initiate_rumor(Content::new(b"hello".to_vec()))
        .unwrap();
    let mut frames = 0;
    for _ in 0..10 {
        for i in 0..nodes.len() {
            if nodes[i].collect_gossip().is_some() {
                frames += 1;
            }
        }
    }
    assert_eq!(frames, 0);
    assert_eq!(nodes[0].rumors().len(), 1);
    assert!(matches!(nodes[0].rumors()[0].1.state(), State::D));
    assert_eq!(nodes[1].rumors().len(), 0);
    assert_eq!(nodes[2].rumors().len(), 0);
}

#[test]
fn sixteen_nodes_with_loss_still_terminate() {
    // Sixteen nodes, 30% of frames dropped at random: every node's record
    // of every rumor still reaches D within a bounded number of rounds.
    let mut nodes = create_network(16);
    let mut rng = rand::rng();
    for i in 0..nodes.len() {
        let content = Content::new(vec![i as u8; 4]);
        nodes[i].initiate_rumor(content).unwrap();
    }
    let mut quiet = 0;
    let mut rounds = 0;
    while quiet < 3 {
        rounds += 1;
        assert!(rounds < 1000, "dissemination must terminate");
        let mut messages = Vec::new();
        let mut any = false;
        for i in 0..nodes.len() {
            if let Some(gossip) = nodes[i].collect_gossip() {
                any = true;
                if rng.random::<f64>() >= 0.30 {
                    messages.push(gossip);
                }
            }
        }
        for gossip in messages {
            let dst = gossip.callee.id;
            for node in nodes.iter_mut() {
                if node.our_id() == dst {
                    // Responses are dropped outright: the protocol must
                    // terminate regardless.
                    let _ = node.receive_gossip(&gossip, true);
                }
            }
        }
        if any {
            quiet = 0;
        } else {
            quiet += 1;
        }
    }
    let mut informed_records = 0;
    for node in nodes.iter() {
        for entry in node.rumors().iter() {
            assert!(matches!(entry.1.state(), State::D));
            informed_records += 1;
        }
    }
    println!(
        "terminated after {} rounds with {} rumor records in state D",
        rounds, informed_records
    );
}

#[test]
fn add_player_is_idempotent() {
    let mut node = Gossiping::new(id_of(1), Vec::new());
    assert!(node.add_player(id_of(2)).is_ok());
    assert!(node.add_player(id_of(2)).is_ok());
    assert_eq!(node.player_count(), 1);
    node.remove_player(id_of(2));
    assert_eq!(node.player_count(), 0);
}

#[test]
fn membership_changes_leave_rumors_alone() {
    let mut node = Gossiping::new(id_of(1), vec![Player { id: id_of(2) }]);
    node.initiate_rumor(Content::new(b"fixed".to_vec())).unwrap();
    let oblivious_before = node.rumors()[0].1.oblivious_players().len();
    node.add_player(id_of(3)).unwrap();
    node.remove_player(id_of(2));
    assert_eq!(
        node.rumors()[0].1.oblivious_players().len(),
        oblivious_before
    );
}

#[test]
fn push_moves_callee_to_informed() {
    // With sixteen peers the round cap is 2, so a fresh rumor survives its
    // first advance: the push goes to some peer, which moves from oblivious
    // to informed for that rumor.
    let peers: Vec<Player> = (2..18).map(|b| Player { id: id_of(b) }).collect();
    let mut node = Gossiping::new(id_of(1), peers);
    node.initiate_rumor(Content::new(b"survives".to_vec()))
        .unwrap();
    let push = node.collect_gossip().expect("a fresh rumor must be pushed");
    assert_eq!(push.caller.id.bytes, id_of(1).bytes);
    assert_eq!(push.rumors.len(), 1);
    assert_eq!(push.rumors[0].content.value, b"survives".to_vec());
    assert!(!matches!(push.rumors[0].state, State::D));
    let entry = &node.rumors()[0].1;
    assert_eq!(entry.informed_players().len(), 1);
    assert_eq!(entry.informed_players()[0].id.bytes, push.callee.id.bytes);
    assert_eq!(entry.oblivious_players().len(), 15);
    // The second advance reaches the round cap: the rumor ends in D and no
    // further push carries it.
    assert!(node.collect_gossip().is_none());
    assert!(matches!(node.rumors()[0].1.state(), State::D));
}

#[test]
fn response_echoes_and_appends() {
    // A push triggers a response that echoes the received rumor under our
    // current state and appends live rumors the caller is oblivious of,
    // moving the caller to informed for each.
    let caller = id_of(2);
    let peers: Vec<Player> = (2..18).map(|b| Player { id: id_of(b) }).collect();
    let mut node = Gossiping::new(id_of(1), peers);
    node.initiate_rumor(Content::new(b"ours".to_vec())).unwrap();

    let push = gossipkit::gossip::Gossip {
        callee: gossipkit::gossip::ObliviousPlayer { id: id_of(1) },
        rumors: vec![gossipkit::gossip::Rumor {
            content: Content::new(b"theirs".to_vec()),
            state: gossipkit::state::State::new(),
        }],
        caller: gossipkit::gossip::InformedPlayer { id: caller },
    };
    let response = node.receive_gossip(&push, true).expect("a push is answered");
    assert_eq!(response.callee.id.bytes, caller.bytes);
    assert_eq!(response.caller.id.bytes, id_of(1).bytes);
    let contents: Vec<&Vec<u8>> = response.rumors.iter().map(|r| &r.content.value).collect();
    assert!(contents.contains(&&b"theirs".to_vec()));
    assert!(contents.contains(&&b"ours".to_vec()));
    assert_eq!(response.rumors.len(), 2);
    // The caller is now informed of our rumor, and recorded as the one
    // informed peer for its own.
    for entry in node.rumors().iter() {
        assert!(entry
            .1
            .informed_players()
            .iter()
            .any(|p| p.id.bytes == caller.bytes));
    }
    // A response never triggers a further response.
    assert!(node.receive_gossip(&push, false).is_none());
}
