//! Plain-value models of the cryptographic primitives: public keys,
//! signatures and value hashes as fixed-width integers, with the actual
//! Ed25519 and SHA-256 work done by the `solana-sdk` crate behind trusted
//! wrappers. What those calls return is named by uninterpreted spec
//! functions over byte sequences.

use vstd::prelude::*;
use crate::bytes::{le_bytes, le_val, lemma_le_bytes_len, lemma_le_round_trip, lemma_pow256_values};

verus! {

/// A 32-byte Ed25519 public key, stored as two little-endian halves.
#[derive(Clone, Copy, PartialEq, Eq, Structural, Debug)]
pub struct Pubkey {
    /// Bytes 0..16, little endian.
    pub a: u128,
    /// Bytes 16..32, little endian.
    pub b: u128,
}

/// A 64-byte Ed25519 signature, stored as four little-endian quarters.
#[derive(Clone, Copy, PartialEq, Eq, Structural, Debug)]
pub struct Signature {
    pub a: u128,
    pub b: u128,
    pub c: u128,
    pub d: u128,
}

/// A 32-byte SHA-256 value hash, stored as two little-endian halves.
#[derive(Clone, Copy, PartialEq, Eq, Structural, Debug)]
pub struct HashVal {
    pub a: u128,
    pub b: u128,
}

impl Pubkey {
    /// The 32 bytes this key stands for.
    pub open spec fn bytes(self) -> Seq<u8> {
        le_bytes(self.a as nat, 16) + le_bytes(self.b as nat, 16)
    }

    /// The all-zero key, used as "no leader known".
    pub fn default_pubkey() -> (r: Pubkey)
        ensures
            r == (Pubkey { a: 0, b: 0 }),
    {
        Pubkey { a: 0, b: 0 }
    }
}

impl Signature {
    /// The 64 bytes this signature stands for.
    pub open spec fn bytes(self) -> Seq<u8> {
        le_bytes(self.a as nat, 16) + le_bytes(self.b as nat, 16) + le_bytes(self.c as nat, 16)
            + le_bytes(self.d as nat, 16)
    }

    /// The all-zero placeholder signature.
    pub fn default_signature() -> (r: Signature)
        ensures
            r == (Signature { a: 0, b: 0, c: 0, d: 0 }),
    {
        Signature { a: 0, b: 0, c: 0, d: 0 }
    }
}

impl HashVal {
    /// The 32 bytes this hash stands for.
    pub open spec fn bytes(self) -> Seq<u8> {
        le_bytes(self.a as nat, 16) + le_bytes(self.b as nat, 16)
    }

    /// A strict total order on hashes, used to break equal-wallclock ties in
    /// the store deterministically on every node.
    pub open spec fn spec_gt(self, other: HashVal) -> bool {
        self.a > other.a || (self.a == other.a && self.b > other.b)
    }

    /// Compares two hashes by the tie-break order.
    pub fn is_greater_than(&self, other: &HashVal) -> (r: bool)
        ensures
            r == self.spec_gt(*other),
    {
        self.a > other.a || (self.a == other.a && self.b > other.b)
    }
}

/// The hash value whose byte encoding is `s` (32 bytes, little-endian
/// halves).
pub open spec fn hashval_of_bytes(s: Seq<u8>) -> HashVal {
    HashVal {
        a: le_val(s.subrange(0, 16)) as u128,
        b: le_val(s.subrange(16, 32)) as u128,
    }
}

/// A hash value is recovered from its own byte encoding.
pub proof fn lemma_hashval_from_bytes(r: HashVal, s: Seq<u8>)
    requires
        r.bytes() == s,
    ensures
        hashval_of_bytes(s) == r,
{
    lemma_pow256_values();
    lemma_le_bytes_len(r.a as nat, 16);
    lemma_le_bytes_len(r.b as nat, 16);
    assert(s.subrange(0, 16) =~= le_bytes(r.a as nat, 16));
    assert(s.subrange(16, 32) =~= le_bytes(r.b as nat, 16));
    lemma_le_round_trip(r.a as nat, 16);
    lemma_le_round_trip(r.b as nat, 16);
}

/// Whether 64 bytes form a valid Ed25519 keypair (secret seed plus matching
/// public key), as `solana_sdk::signature::Keypair::try_from` accepts them.
pub uninterp spec fn keypair_wf(kp: Seq<u8>) -> bool;

/// The 32-byte public key derived from a keypair's bytes
/// (`solana_sdk::signer::Signer::pubkey`).
pub uninterp spec fn keypair_pubkey(kp: Seq<u8>) -> Seq<u8>;

/// The Ed25519 signature of `msg` under the keypair `kp`
/// (`solana_sdk::signer::Signer::sign_message`; Ed25519 signing is
/// deterministic in the keypair and message).
pub uninterp spec fn sig_of(kp: Seq<u8>, msg: Seq<u8>) -> Seq<u8>;

/// Whether `sig` is a valid Ed25519 signature of `msg` under public key `pk`
/// (`solana_sdk::signature::Signature::verify`).
pub uninterp spec fn sig_verifies(pk: Seq<u8>, msg: Seq<u8>, sig: Seq<u8>) -> bool;

/// The SHA-256 digest of `data` (`solana_sdk::hash::hash`).
pub uninterp spec fn hash_of(data: Seq<u8>) -> Seq<u8>;

/// Relies on `solana_sdk::signature::Keypair::new`: a freshly generated
/// keypair serializes to 64 bytes that `Keypair::try_from` accepts again.
/// The keypair is random; nothing else is promised.
#[verifier::external_body]
pub fn generate_keypair() -> (r: Vec<u8>)
    ensures
        r@.len() == 64,
        keypair_wf(r@),
{
    solana_sdk::signature::Keypair::new().to_bytes().to_vec()
}

/// Relies on `solana_sdk::signature::Keypair::try_from(&[u8])`: it accepts
/// exactly the 64-byte strings whose second half is the public key derived
/// from the first.
#[verifier::external_body]
pub fn keypair_is_valid(kp: &Vec<u8>) -> (r: bool)
    ensures
        r == keypair_wf(kp@),
{
    solana_sdk::signature::Keypair::try_from(kp.as_slice()).is_ok()
}

/// Relies on `solana_sdk::signer::Signer::pubkey` for `Keypair`: the public
/// key is a function of the keypair bytes alone.
#[verifier::external_body]
pub fn keypair_pubkey_of(kp: &Vec<u8>) -> (r: Pubkey)
    requires
        keypair_wf(kp@),
    ensures
        r.bytes() == keypair_pubkey(kp@),
{
    let keypair = solana_sdk::signature::Keypair::try_from(kp.as_slice()).unwrap();
    let pk: [u8; 32] = solana_sdk::signer::Signer::pubkey(&keypair).to_bytes();
    Pubkey {
        a: u128::from_le_bytes(pk[0..16].try_into().unwrap()),
        b: u128::from_le_bytes(pk[16..32].try_into().unwrap()),
    }
}

/// Relies on `solana_sdk::signer::Signer::sign_message` for `Keypair`:
/// Ed25519 signing is deterministic, and the signature it produces verifies
/// against the keypair's public key (`Signature::verify`).
#[verifier::external_body]
pub fn sign_message(kp: &Vec<u8>, msg: &Vec<u8>) -> (r: Signature)
    requires
        keypair_wf(kp@),
    ensures
        r.bytes() == sig_of(kp@, msg@),
        sig_verifies(keypair_pubkey(kp@), msg@, r.bytes()),
{
    let keypair = solana_sdk::signature::Keypair::try_from(kp.as_slice()).unwrap();
    let sig = solana_sdk::signer::Signer::sign_message(&keypair, msg.as_slice());
    let sb: [u8; 64] = sig.into();
    Signature {
        a: u128::from_le_bytes(sb[0..16].try_into().unwrap()),
        b: u128::from_le_bytes(sb[16..32].try_into().unwrap()),
        c: u128::from_le_bytes(sb[32..48].try_into().unwrap()),
        d: u128::from_le_bytes(sb[48..64].try_into().unwrap()),
    }
}

/// Relies on `solana_sdk::signature::Signature::verify`: verification is a
/// function of the public key, message and signature bytes alone.
#[verifier::external_body]
pub fn verify_signature(pk: &Pubkey, msg: &Vec<u8>, sig: &Signature) -> (r: bool)
    ensures
        r == sig_verifies(pk.bytes(), msg@, sig.bytes()),
{
    let mut pkb = pk.a.to_le_bytes().to_vec();
    pkb.extend_from_slice(&pk.b.to_le_bytes());
    let mut sgb = sig.a.to_le_bytes().to_vec();
    sgb.extend_from_slice(&sig.b.to_le_bytes());
    sgb.extend_from_slice(&sig.c.to_le_bytes());
    sgb.extend_from_slice(&sig.d.to_le_bytes());
    let s = solana_sdk::signature::Signature::from(<[u8; 64]>::try_from(sgb.as_slice()).unwrap());
    s.verify(&pkb, msg.as_slice())
}

/// Relies on `solana_sdk::hash::hash`: the SHA-256 digest is a function of
/// the input bytes alone.
#[verifier::external_body]
pub fn hash_value(data: &Vec<u8>) -> (r: HashVal)
    ensures
        r.bytes() == hash_of(data@),
{
    let h: [u8; 32] = solana_sdk::hash::hash(data.as_slice()).to_bytes();
    HashVal {
        a: u128::from_le_bytes(h[0..16].try_into().unwrap()),
        b: u128::from_le_bytes(h[16..32].try_into().unwrap()),
    }
}

/// A validated Ed25519 keypair: 64 bytes that `solana-sdk` accepts, held
/// behind a type invariant so signing never fails.
#[derive(Debug)]
pub struct NodeKeypair {
    bytes: Vec<u8>,
}

impl View for NodeKeypair {
    type V = Seq<u8>;

    closed spec fn view(&self) -> Seq<u8> {
        self.bytes@
    }
}

impl NodeKeypair {
    #[verifier::type_invariant]
    spec fn type_inv(self) -> bool {
        keypair_wf(self.bytes@)
    }

    /// A freshly generated random keypair.
    pub fn new() -> (r: NodeKeypair)
        ensures
            keypair_wf(r@),
    {
        let bytes = generate_keypair();
        NodeKeypair { bytes }
    }

    /// Accepts 64 bytes as a keypair if the crypto library does.
    pub fn from_bytes(bytes: Vec<u8>) -> (r: Option<NodeKeypair>)
        ensures
            match r {
                Some(kp) => kp@ == bytes@ && keypair_wf(bytes@),
                None => !keypair_wf(bytes@),
            },
    {
        if keypair_is_valid(&bytes) {
            Some(NodeKeypair { bytes })
        } else {
            None
        }
    }

    /// The public key of this keypair.
    pub fn pubkey(&self) -> (r: Pubkey)
        ensures
            r.bytes() == keypair_pubkey(self@),
    {
        proof {
            use_type_invariant(self);
        }
        keypair_pubkey_of(&self.bytes)
    }

    /// The keypair's 64 bytes, known valid.
    pub fn key_bytes(&self) -> (r: &Vec<u8>)
        ensures
            r@ == self@,
            keypair_wf(self@),
    {
        proof {
            use_type_invariant(self);
        }
        &self.bytes
    }

    /// Signs a message; the signature verifies against this keypair's public
    /// key.
    pub fn sign(&self, msg: &Vec<u8>) -> (r: Signature)
        ensures
            r.bytes() == sig_of(self@, msg@),
            sig_verifies(keypair_pubkey(self@), msg@, r.bytes()),
    {
        proof {
            use_type_invariant(self);
        }
        sign_message(&self.bytes, msg)
    }
}

/// Relies on `solana_sdk::timing::timestamp`: milliseconds since the epoch
/// from the system clock. The value depends on the clock; nothing is promised
/// of it.
#[verifier::external_body]
pub fn timestamp() -> (r: u64) {
    solana_sdk::timing::timestamp()
}

} // verus!
