use gossipkit::crypto::Keys;
use gossipkit::error::Error;
use gossipkit::gossip::{Content, Gossip, InformedPlayer, ObliviousPlayer, Rumor};
use gossipkit::id::Id;
use gossipkit::state::{Age, Round, State};
use gossipkit::transmission::Transmission;

fn id_of(byte: u8) -> Id {
    Id::new([byte; 32])
}

fn sample_gossip() -> Gossip {
    Gossip {
        callee: ObliviousPlayer { id: id_of(2) },
        rumors: vec![
            Rumor {
                content: Content::new(b"hello".to_vec()),
                state: State::B {
                    round: Round::from(1),
                    age: Age::from(2),
                    player_ages: vec![(id_of(7), Age::from(3)), (id_of(8), Age::from(255))],
                },
            },
            Rumor {
                content: Content::new(Vec::new()),
                state: State::C { rounds_in_state_b: Round::from(2), round: Round::from(1) },
            },
            Rumor { content: Content::new(vec![0, 255, 31]), state: State::D },
        ],
        caller: InformedPlayer { id: id_of(1) },
    }
}

fn assert_state_eq(a: &State, b: &State) {
    match (a, b) {
        (
            State::B { round: r1, age: a1, player_ages: p1 },
            State::B { round: r2, age: a2, player_ages: p2 },
        ) => {
            assert_eq!(r1, r2);
            assert_eq!(a1, a2);
            assert_eq!(p1.len(), p2.len());
            for (x, y) in p1.iter().zip(p2.iter()) {
                assert_eq!(x.0.bytes, y.0.bytes);
                assert_eq!(x.1, y.1);
            }
        },
        (
            State::C { rounds_in_state_b: b1, round: r1 },
            State::C { rounds_in_state_b: b2, round: r2 },
        ) => {
            assert_eq!(b1, b2);
            assert_eq!(r1, r2);
        },
        (State::D, State::D) => {},
        _ => panic!("states differ in phase"),
    }
}

fn assert_gossip_eq(a: &Gossip, b: &Gossip) {
    assert_eq!(a.callee.id.bytes, b.callee.id.bytes);
    assert_eq!(a.caller.id.bytes, b.caller.id.bytes);
    assert_eq!(a.rumors.len(), b.rumors.len());
    for (x, y) in a.rumors.iter().zip(b.rumors.iter()) {
        assert_eq!(x.content.value, y.content.value);
        assert_state_eq(&x.state, &y.state);
    }
}

#[test]
fn codec_round_trip_push() {
    // Serializing under a keypair and deserializing under its public key
    // gives the same gossip back, still marked as a push.
    let keys = Keys::from_secret([7u8; 32]);
    let gossip = sample_gossip();
    let bytes = Transmission::serialise(&gossip, true, &keys);
    let transmission = Transmission::deserialise(&bytes, &keys.public).expect("should verify");
    let (decoded, is_push) = transmission.get_value().expect("should decode");
    assert!(is_push);
    assert_gossip_eq(&gossip, &decoded);
}

#[test]
fn codec_round_trip_response() {
    let keys = Keys::from_secret([9u8; 32]);
    let gossip = sample_gossip();
    let bytes = Transmission::serialise(&gossip, false, &keys);
    let transmission = Transmission::deserialise(&bytes, &keys.public).expect("should verify");
    let (decoded, is_push) = transmission.get_value().expect("should decode");
    assert!(!is_push);
    assert_gossip_eq(&gossip, &decoded);
}

#[test]
fn signature_rejection_under_wrong_key() {
    // A frame fails with SignatureInvalid under any public key other than
    // the signer's.
    let keys = Keys::from_secret([7u8; 32]);
    let other = Keys::from_secret([8u8; 32]);
    let bytes = Transmission::serialise(&sample_gossip(), true, &keys);
    match Transmission::deserialise(&bytes, &other.public) {
        Err(Error::SignatureInvalid) => {},
        _ => panic!("expected SignatureInvalid"),
    }
}

#[test]
fn tampered_frame_is_rejected() {
    let keys = Keys::from_secret([7u8; 32]);
    let mut bytes = Transmission::serialise(&sample_gossip(), true, &keys);
    // Flip one payload byte: the signature no longer matches.
    let mid = bytes.len() / 2;
    bytes[mid] ^= 0x01;
    assert!(Transmission::deserialise(&bytes, &keys.public).is_err());
}

#[test]
fn malformed_bytes_are_codec_failure() {
    let keys = Keys::from_secret([7u8; 32]);
    let garbage = vec![42u8; 10];
    match Transmission::deserialise(&garbage, &keys.public) {
        Err(Error::CodecFailure) => {},
        _ => panic!("expected CodecFailure"),
    }
}

#[test]
fn forged_sender_key_is_rejected() {
    // A node forges a gossip purporting to come from another player's key
    // but signs it with its own. The recipient, told the frame came from
    // that other player, rejects it, and the frame never reaches an engine.
    let keys_a = Keys::from_secret([1u8; 32]);
    let keys_z = Keys::from_secret([2u8; 32]);
    let forged = Gossip {
        callee: ObliviousPlayer { id: id_of(3) },
        rumors: vec![Rumor {
            content: Content::new(b"planted".to_vec()),
            state: State::new(),
        }],
        caller: InformedPlayer { id: Id::new(keys_z.public) },
    };
    let bytes = Transmission::serialise(&forged, true, &keys_a);

    let mut receiver = gossipkit::gossiping::Gossiping::new(id_of(3), Vec::new());
    match Transmission::deserialise(&bytes, &keys_z.public) {
        Ok(t) => {
            // Only a verified frame may reach the engine.
            let (gossip, is_push) = t.get_value().expect("decodes");
            receiver.receive_gossip(&gossip, is_push);
            panic!("forged frame must not verify");
        },
        Err(e) => assert_eq!(e, Error::SignatureInvalid),
    }
    assert_eq!(receiver.rumors().len(), 0);
}
