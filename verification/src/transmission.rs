//! The authenticated transmission frame: a gossip payload, signed, tagged as
//! push or response.
//!
//! The payload is the deterministic encoding of a gossip; the signature is
//! Ed25519 under the sender's keypair over the payload's SHA3-512 digest. A
//! frame whose signature does not verify under the supplied public key is
//! rejected, so no unverified gossip ever reaches the engine.

use vstd::prelude::*;

use crate::codec::{
    decode_gossip, enc_bytes, enc_gossip, encode_gossip, gossip_of_bytes, lemma_gossip_roundtrip,
    lemma_gossip_view_wf, lemma_parse_bytes, parse_bytes, read_bytes_field, write_bytes_field,
};
use crate::crypto::{
    ed25519_pk_of, ed25519_sig_of, ed25519_verifies, sha3_512, sha3_512_of, sign_message,
    verify_signature, Keys,
};
use crate::error::Error;
use crate::gossip::{Gossip, GossipV};

verus! {

broadcast use vstd::array::group_array_axioms, vstd::std_specs::vec::axiom_spec_len;

/// The mathematical value of a transmission frame.
pub enum TransmissionV {
    Push { payload: Seq<u8>, sig: Seq<u8> },
    Response { payload: Seq<u8>, sig: Seq<u8> },
}

/// The payload bytes a frame carries.
pub open spec fn spec_payload(t: TransmissionV) -> Seq<u8> {
    match t {
        TransmissionV::Push { payload, .. } => payload,
        TransmissionV::Response { payload, .. } => payload,
    }
}

/// The signature bytes a frame carries.
pub open spec fn spec_sig(t: TransmissionV) -> Seq<u8> {
    match t {
        TransmissionV::Push { sig, .. } => sig,
        TransmissionV::Response { sig, .. } => sig,
    }
}

/// Whether a frame is a push (as opposed to a response).
pub open spec fn spec_is_push(t: TransmissionV) -> bool {
    t is Push
}

/// A signed frame: a push carries unsolicited rumors, a response answers one.
#[derive(Debug)]
pub enum Transmission {
    Push { payload: Vec<u8>, sig: [u8; 64] },
    Response { payload: Vec<u8>, sig: [u8; 64] },
}

impl View for Transmission {
    type V = TransmissionV;

    open spec fn view(&self) -> TransmissionV {
        match self {
            Transmission::Push { payload, sig } => TransmissionV::Push {
                payload: payload@,
                sig: sig@,
            },
            Transmission::Response { payload, sig } => TransmissionV::Response {
                payload: payload@,
                sig: sig@,
            },
        }
    }
}

/// A frame on the wire: a tag byte (0 push, 1 response), the length-prefixed
/// payload, then the 64 raw signature bytes.
pub open spec fn enc_transmission(t: TransmissionV) -> Seq<u8> {
    match t {
        TransmissionV::Push { payload, sig } => seq![0u8] + enc_bytes(payload) + sig,
        TransmissionV::Response { payload, sig } => seq![1u8] + enc_bytes(payload) + sig,
    }
}

pub open spec fn transmission_bytes_wf(t: TransmissionV) -> bool {
    spec_payload(t).len() <= u64::MAX && spec_sig(t).len() == 64
}

/// A whole buffer as one frame: tag, payload, and exactly 64 trailing
/// signature bytes.
pub open spec fn transmission_of_bytes(b: Seq<u8>) -> Option<TransmissionV> {
    if b.len() < 1 {
        None
    } else if b[0] == 0 || b[0] == 1 {
        match parse_bytes(b.skip(1)) {
            Some((p, r)) => if r.len() == 64 {
                if b[0] == 0 {
                    Some(TransmissionV::Push { payload: p, sig: r })
                } else {
                    Some(TransmissionV::Response { payload: p, sig: r })
                }
            } else {
                None
            },
            None => None,
        }
    } else {
        None
    }
}

/// Round trip: decoding an encoded frame gives the frame back.
pub proof fn lemma_transmission_roundtrip(t: TransmissionV)
    requires
        transmission_bytes_wf(t),
    ensures
        transmission_of_bytes(enc_transmission(t)) == Some(t),
{
    let b = enc_transmission(t);
    let payload = spec_payload(t);
    let sig = spec_sig(t);
    assert(b.skip(1) =~= enc_bytes(payload) + sig);
    lemma_parse_bytes(payload, sig);
    assert(transmission_of_bytes(b)->Some_0 == t);
}

/// What serializing a gossip produces: its encoding, signed under the
/// secret key, framed as push or response.
pub open spec fn spec_serialise(g: GossipV, is_push: bool, sk: Seq<u8>) -> Seq<u8> {
    let payload = enc_gossip(g);
    let sig = ed25519_sig_of(sk, sha3_512_of(payload));
    if is_push {
        enc_transmission(TransmissionV::Push { payload, sig })
    } else {
        enc_transmission(TransmissionV::Response { payload, sig })
    }
}

/// What deserializing bytes under a public key yields: the decoded frame if
/// its signature verifies, `SignatureInvalid` if it does not, `CodecFailure`
/// if the bytes are malformed.
pub open spec fn spec_deserialise(b: Seq<u8>, pk: Seq<u8>) -> Result<TransmissionV, Error> {
    match transmission_of_bytes(b) {
        Some(t) => if ed25519_verifies(pk, sha3_512_of(spec_payload(t)), spec_sig(t)) {
            Ok(t)
        } else {
            Err(Error::SignatureInvalid)
        },
        None => Err(Error::CodecFailure),
    }
}

impl Transmission {
    /// The carried payload bytes.
    pub fn payload(&self) -> (r: &Vec<u8>)
        ensures
            r@ == spec_payload(self@),
    {
        match self {
            Transmission::Push { payload, .. } => payload,
            Transmission::Response { payload, .. } => payload,
        }
    }

    /// The carried signature bytes.
    pub fn sig_bytes(&self) -> (r: &[u8; 64])
        ensures
            r@ == spec_sig(self@),
    {
        match self {
            Transmission::Push { sig, .. } => sig,
            Transmission::Response { sig, .. } => sig,
        }
    }

    /// Decode the carried gossip; `true` means the frame was a push.
    pub fn get_value(&self) -> (r: Result<(Gossip, bool), Error>)
        ensures
            match r {
                Ok(p) => gossip_of_bytes(spec_payload(self@)) == Some(p.0@) && p.1 == spec_is_push(
                    self@,
                ),
                Err(e) => e == Error::CodecFailure && gossip_of_bytes(spec_payload(self@)) is None,
            },
    {
        let is_push = match self {
            Transmission::Push { .. } => true,
            Transmission::Response { .. } => false,
        };
        match decode_gossip(self.payload()) {
            Some(g) => Ok((g, is_push)),
            None => Err(Error::CodecFailure),
        }
    }

    /// Encode a gossip, sign it, and frame it as push or response.
    ///
    /// The result deserializes, under the signer's public key, back to a
    /// frame of the same direction whose payload decodes to the same gossip.
    pub fn serialise(gossip: &Gossip, is_push: bool, keys: &Keys) -> (r: Vec<u8>)
        ensures
            r@ == spec_serialise(gossip@, is_push, keys.secret@),
            spec_deserialise(r@, ed25519_pk_of(keys.secret@)) matches Ok(t) && spec_is_push(t)
                == is_push && gossip_of_bytes(spec_payload(t)) == Some(gossip@),
    {
        let payload = encode_gossip(gossip);
        let digest = sha3_512(&payload);
        let sig = sign_message(&keys.secret, &digest);
        let t = if is_push {
            Transmission::Push { payload, sig }
        } else {
            Transmission::Response { payload, sig }
        };
        let r = encode_transmission(&t);
        proof {
            lemma_transmission_roundtrip(t@);
            lemma_gossip_view_wf(gossip);
            lemma_gossip_roundtrip(gossip@);
        }
        r
    }

    /// Decode a frame and verify its signature under the supplied public
    /// key; exactly the frames `spec_deserialise` accepts come back `Ok`.
    pub fn deserialise(bytes: &Vec<u8>, key: &[u8; 32]) -> (r: Result<Transmission, Error>)
        ensures
            match r {
                Ok(t) => spec_deserialise(bytes@, key@) == Ok::<TransmissionV, Error>(t@),
                Err(e) => spec_deserialise(bytes@, key@) == Err::<TransmissionV, Error>(e),
            },
    {
        let t = match decode_transmission(bytes) {
            Some(t) => t,
            None => { return Err(Error::CodecFailure); },
        };
        let digest = sha3_512(t.payload());
        if verify_signature(key, &digest, t.sig_bytes()) {
            Ok(t)
        } else {
            Err(Error::SignatureInvalid)
        }
    }
}

/// Encode a frame for the wire.
pub(crate) fn encode_transmission(t: &Transmission) -> (r: Vec<u8>)
    ensures
        r@ == enc_transmission(t@),
{
    let mut out: Vec<u8> = Vec::new();
    match t {
        Transmission::Push { payload, sig } => {
            out.push(0u8);
            write_bytes_field(&mut out, payload);
            write_sig(&mut out, sig);
            proof {
                assert(out@ =~= enc_transmission(t@));
            }
        },
        Transmission::Response { payload, sig } => {
            out.push(1u8);
            write_bytes_field(&mut out, payload);
            write_sig(&mut out, sig);
            proof {
                assert(out@ =~= enc_transmission(t@));
            }
        },
    }
    out
}

#[verifier::loop_isolation(false)]
fn write_sig(out: &mut Vec<u8>, sig: &[u8; 64])
    ensures
        final(out)@ == old(out)@ + sig@,
{
    let mut i: usize = 0;
    while i < 64
        invariant
            0 <= i <= 64,
            out@ == old(out)@ + sig@.take(i as int),
        decreases 64 - i,
    {
        out.push(sig[i]);
        proof {
            assert(old(out)@ + sig@.take(i as int + 1) =~= (old(out)@ + sig@.take(i as int)).push(
                sig@[i as int],
            ));
        }
        i += 1;
    }
    proof {
        assert(old(out)@ + sig@.take(64) =~= old(out)@ + sig@);
    }
}

/// Decode a whole buffer as one frame; `None` on malformed bytes.
#[verifier::loop_isolation(false)]
fn decode_transmission(b: &Vec<u8>) -> (r: Option<Transmission>)
    ensures
        match r {
            Some(t) => transmission_of_bytes(b@) == Some(t@),
            None => transmission_of_bytes(b@) is None,
        },
{
    if b.len() < 1 {
        return None;
    }
    let tag = b[0];
    if tag > 1 {
        return None;
    }
    proof {
        assert(b@.skip(0).skip(1) =~= b@.skip(1));
        assert(b@.skip(0) =~= b@);
    }
    let (payload, j) = match read_bytes_field(b, 1) {
        Some(p) => p,
        None => { return None; },
    };
    if b.len() - j != 64 {
        proof {
            assert(b@.skip(j as int).len() != 64);
        }
        return None;
    }
    let mut sig: [u8; 64] = [0u8; 64];
    let mut k: usize = 0;
    while k < 64
        invariant
            0 <= k <= 64,
            j + 64 == b@.len(),
            forall|t: int| 0 <= t < k ==> sig@[t] == b@[j + t],
        decreases 64 - k,
    {
        sig[k] = b[j + k];
        k += 1;
    }
    proof {
        assert(sig@ =~= b@.skip(j as int));
    }
    if tag == 0 {
        Some(Transmission::Push { payload, sig })
    } else {
        Some(Transmission::Response { payload, sig })
    }
}

} // verus!
