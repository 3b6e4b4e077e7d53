//! The wire codec: a little-endian, length-prefixed binary format for the
//! gossip envelopes and for the canonical bytes that signatures cover. For
//! every type there is a spec-level serializer `ser_*`, a spec-level reader
//! `rd_*`, a lemma showing the reader inverts the serializer, and executable
//! functions proved equal to the spec pair.

use vstd::prelude::*;
use crate::addr::{IpAddress, SocketAddress};
use crate::bloom::{bloom_wf, Bloom, BloomV, MAX_BLOOM_KEYS, MAX_BLOOM_WORDS};
use crate::bytes::{
    get_le, le_bytes, le_val, lemma_le_bytes_len, lemma_le_round_trip, lemma_pow256_values, pow256,
    put_le,
};
use crate::contact_info::ContactInfo;
use crate::crds_value::{
    CrdsData, CrdsDataV, CrdsValue, CrdsValueV, LeaderId, Transaction, Vote, VoteV,
};
use crate::keys::{Pubkey, Signature};
use crate::protocol::{views_of_values, Protocol, ProtocolV, PruneData, PruneDataV};

verus! {

// ---------------------------------------------------------------------------
// Spec serializers.
// ---------------------------------------------------------------------------
/// The 32 bytes of a public key on the wire.
pub open spec fn ser_pubkey(p: Pubkey) -> Seq<u8> {
    p.bytes()
}

/// The 64 bytes of a signature on the wire.
pub open spec fn ser_sig(s: Signature) -> Seq<u8> {
    s.bytes()
}

/// An IP address: a one-byte version tag, then the packed address.
pub open spec fn ser_ip(ip: IpAddress) -> Seq<u8> {
    match ip {
        IpAddress::V4(x) => seq![4u8] + le_bytes(x as nat, 4),
        IpAddress::V6(x) => seq![6u8] + le_bytes(x as nat, 16),
    }
}

/// A socket address: the IP, then the port in two bytes.
pub open spec fn ser_sock(s: SocketAddress) -> Seq<u8> {
    ser_ip(s.ip) + le_bytes(s.port as nat, 2)
}

/// A contact record: the identity, the six endpoints in a fixed order, then
/// the wallclock.
pub open spec fn ser_contact_info(c: ContactInfo) -> Seq<u8> {
    ser_pubkey(c.id) + ser_sock(c.gossip) + ser_sock(c.tvu) + ser_sock(c.tpu) + ser_sock(c.storage)
        + ser_sock(c.rpc) + ser_sock(c.rpc_pubsub) + le_bytes(c.wallclock as nat, 8)
}

/// A leader opinion: the opining node, its chosen leader, the wallclock.
pub open spec fn ser_leader_id(l: LeaderId) -> Seq<u8> {
    ser_pubkey(l.from) + ser_pubkey(l.leader_id) + le_bytes(l.wallclock as nat, 8)
}

/// A length-prefixed byte string: eight bytes of length, then the bytes.
pub open spec fn ser_bytes_field(b: Seq<u8>) -> Seq<u8> {
    le_bytes(b.len(), 8) + b
}

/// A vote: the voting node, the opaque transaction, the wallclock.
pub open spec fn ser_vote(v: VoteV) -> Seq<u8> {
    ser_pubkey(v.from) + ser_bytes_field(v.transaction) + le_bytes(v.wallclock as nat, 8)
}

/// A payload: a one-byte variant tag, then the variant's fields.
pub open spec fn ser_data(d: CrdsDataV) -> Seq<u8> {
    match d {
        CrdsDataV::ContactInfo(c) => seq![0u8] + ser_contact_info(c),
        CrdsDataV::LeaderId(l) => seq![1u8] + ser_leader_id(l),
        CrdsDataV::Vote(v) => seq![2u8] + ser_vote(v),
    }
}

/// A signed value: the payload, then the signature. The signature covers
/// exactly the payload bytes.
pub open spec fn ser_value(v: CrdsValueV) -> Seq<u8> {
    ser_data(v.data) + ser_sig(v.signature)
}

/// A payload small enough for the wire format's length fields.
pub open spec fn data_wf(d: CrdsDataV) -> bool {
    match d {
        CrdsDataV::Vote(v) => v.transaction.len() < 0x1_0000_0000,
        _ => true,
    }
}

/// A value whose payload fits the wire format.
pub open spec fn value_wf(v: CrdsValueV) -> bool {
    data_wf(v.data)
}

// ---------------------------------------------------------------------------
// Spec readers.
// ---------------------------------------------------------------------------
/// Reads `n` little-endian bytes at `pos` as a number.
pub open spec fn rd_le(bytes: Seq<u8>, pos: int, n: nat) -> Option<(nat, int)> {
    if 0 <= pos && pos + n <= bytes.len() {
        Some((le_val(bytes.subrange(pos, pos + n)), pos + n))
    } else {
        None
    }
}

/// Reads a public key.
pub open spec fn rd_pubkey(bytes: Seq<u8>, pos: int) -> Option<(Pubkey, int)> {
    if 0 <= pos && pos + 32 <= bytes.len() {
        Some(
            (
                Pubkey {
                    a: le_val(bytes.subrange(pos, pos + 16)) as u128,
                    b: le_val(bytes.subrange(pos + 16, pos + 32)) as u128,
                },
                pos + 32,
            ),
        )
    } else {
        None
    }
}

/// Reads a signature.
pub open spec fn rd_sig(bytes: Seq<u8>, pos: int) -> Option<(Signature, int)> {
    if 0 <= pos && pos + 64 <= bytes.len() {
        Some(
            (
                Signature {
                    a: le_val(bytes.subrange(pos, pos + 16)) as u128,
                    b: le_val(bytes.subrange(pos + 16, pos + 32)) as u128,
                    c: le_val(bytes.subrange(pos + 32, pos + 48)) as u128,
                    d: le_val(bytes.subrange(pos + 48, pos + 64)) as u128,
                },
                pos + 64,
            ),
        )
    } else {
        None
    }
}

/// Reads a socket address.
pub open spec fn rd_sock(bytes: Seq<u8>, pos: int) -> Option<(SocketAddress, int)> {
    if !(0 <= pos && pos + 1 <= bytes.len()) {
        None
    } else if bytes[pos] == 4u8 {
        if pos + 7 <= bytes.len() {
            Some(
                (
                    SocketAddress {
                        ip: IpAddress::V4(le_val(bytes.subrange(pos + 1, pos + 5)) as u32),
                        port: le_val(bytes.subrange(pos + 5, pos + 7)) as u16,
                    },
                    pos + 7,
                ),
            )
        } else {
            None
        }
    } else if bytes[pos] == 6u8 {
        if pos + 19 <= bytes.len() {
            Some(
                (
                    SocketAddress {
                        ip: IpAddress::V6(le_val(bytes.subrange(pos + 1, pos + 17)) as u128),
                        port: le_val(bytes.subrange(pos + 17, pos + 19)) as u16,
                    },
                    pos + 19,
                ),
            )
        } else {
            None
        }
    } else {
        None
    }
}

/// Reads a contact record.
pub open spec fn rd_contact_info(bytes: Seq<u8>, pos: int) -> Option<(ContactInfo, int)> {
    match rd_pubkey(bytes, pos) {
        None => None,
        Some((id, p1)) => match rd_sock(bytes, p1) {
            None => None,
            Some((gossip, p2)) => match rd_sock(bytes, p2) {
                None => None,
                Some((tvu, p3)) => match rd_sock(bytes, p3) {
                    None => None,
                    Some((tpu, p4)) => match rd_sock(bytes, p4) {
                        None => None,
                        Some((storage, p5)) => match rd_sock(bytes, p5) {
                            None => None,
                            Some((rpc, p6)) => match rd_sock(bytes, p6) {
                                None => None,
                                Some((rpc_pubsub, p7)) => match rd_le(bytes, p7, 8) {
                                    None => None,
                                    Some((wc, p8)) => Some(
                                        (
                                            ContactInfo {
                                                id,
                                                gossip,
                                                tvu,
                                                tpu,
                                                storage,
                                                rpc,
                                                rpc_pubsub,
                                                wallclock: wc as u64,
                                            },
                                            p8,
                                        ),
                                    ),
                                },
                            },
                        },
                    },
                },
            },
        },
    }
}

/// Reads a leader opinion.
pub open spec fn rd_leader_id(bytes: Seq<u8>, pos: int) -> Option<(LeaderId, int)> {
    match rd_pubkey(bytes, pos) {
        None => None,
        Some((from, p1)) => match rd_pubkey(bytes, p1) {
            None => None,
            Some((leader_id, p2)) => match rd_le(bytes, p2, 8) {
                None => None,
                Some((wc, p3)) => Some((LeaderId { from, leader_id, wallclock: wc as u64 }, p3)),
            },
        },
    }
}

/// Reads a length-prefixed byte string, refusing lengths at or above 2^32.
pub open spec fn rd_bytes_field(bytes: Seq<u8>, pos: int) -> Option<(Seq<u8>, int)> {
    match rd_le(bytes, pos, 8) {
        None => None,
        Some((n, p1)) => if n < 0x1_0000_0000 && p1 + n <= bytes.len() {
            Some((bytes.subrange(p1, p1 + n), p1 + n))
        } else {
            None
        },
    }
}

/// Reads a vote.
pub open spec fn rd_vote(bytes: Seq<u8>, pos: int) -> Option<(VoteV, int)> {
    match rd_pubkey(bytes, pos) {
        None => None,
        Some((from, p1)) => match rd_bytes_field(bytes, p1) {
            None => None,
            Some((tx, p2)) => match rd_le(bytes, p2, 8) {
                None => None,
                Some((wc, p3)) => Some(
                    (VoteV { from, transaction: tx, wallclock: wc as u64 }, p3),
                ),
            },
        },
    }
}

/// Reads a payload.
pub open spec fn rd_data(bytes: Seq<u8>, pos: int) -> Option<(CrdsDataV, int)> {
    if !(0 <= pos && pos + 1 <= bytes.len()) {
        None
    } else if bytes[pos] == 0u8 {
        match rd_contact_info(bytes, pos + 1) {
            None => None,
            Some((c, p1)) => Some((CrdsDataV::ContactInfo(c), p1)),
        }
    } else if bytes[pos] == 1u8 {
        match rd_leader_id(bytes, pos + 1) {
            None => None,
            Some((l, p1)) => Some((CrdsDataV::LeaderId(l), p1)),
        }
    } else if bytes[pos] == 2u8 {
        match rd_vote(bytes, pos + 1) {
            None => None,
            Some((v, p1)) => Some((CrdsDataV::Vote(v), p1)),
        }
    } else {
        None
    }
}

/// Reads a signed value.
pub open spec fn rd_value(bytes: Seq<u8>, pos: int) -> Option<(CrdsValueV, int)> {
    match rd_data(bytes, pos) {
        None => None,
        Some((d, p1)) => match rd_sig(bytes, p1) {
            None => None,
            Some((s, p2)) => Some((CrdsValueV { data: d, signature: s }, p2)),
        },
    }
}

// ---------------------------------------------------------------------------
// The reader inverts the serializer.
// ---------------------------------------------------------------------------
/// A serialized public key is 32 bytes.
pub proof fn lemma_ser_pubkey_len(p: Pubkey)
    ensures
        ser_pubkey(p).len() == 32,
{
    lemma_le_bytes_len(p.a as nat, 16);
    lemma_le_bytes_len(p.b as nat, 16);
}

/// A serialized signature is 64 bytes.
pub proof fn lemma_ser_sig_len(s: Signature)
    ensures
        ser_sig(s).len() == 64,
{
    lemma_le_bytes_len(s.a as nat, 16);
    lemma_le_bytes_len(s.b as nat, 16);
    lemma_le_bytes_len(s.c as nat, 16);
    lemma_le_bytes_len(s.d as nat, 16);
}

/// Splitting off a known prefix of the remaining input.
pub proof fn lemma_tail_after(bytes: Seq<u8>, pos: int, a: Seq<u8>, rest: Seq<u8>)
    requires
        0 <= pos <= bytes.len(),
        bytes.subrange(pos, bytes.len() as int) == a + rest,
    ensures
        pos + a.len() <= bytes.len(),
        bytes.subrange(pos, pos + a.len()) == a,
        bytes.subrange(pos + a.len(), bytes.len() as int) == rest,
{
    let whole = bytes.subrange(pos, bytes.len() as int);
    assert(whole.len() == a.len() + rest.len());
    assert(bytes.subrange(pos, pos + a.len()) =~= a) by {
        assert forall|k: int| 0 <= k < a.len() implies bytes.subrange(pos, pos + a.len())[k]
            == a[k] by {
            assert(whole[k] == (a + rest)[k]);
        };
    };
    assert(bytes.subrange(pos + a.len(), bytes.len() as int) =~= rest) by {
        assert forall|k: int|
            0 <= k < rest.len() implies bytes.subrange(pos + a.len(), bytes.len() as int)[k]
            == rest[k] by {
            assert(whole[k + a.len()] == (a + rest)[k + a.len()]);
        };
    };
}

/// Reading `n` bytes where the input continues with `le_bytes(x, n)`.
pub proof fn lemma_rd_le(bytes: Seq<u8>, pos: int, n: nat, x: nat, rest: Seq<u8>)
    requires
        0 <= pos <= bytes.len(),
        x < pow256(n),
        bytes.subrange(pos, bytes.len() as int) == le_bytes(x, n) + rest,
    ensures
        rd_le(bytes, pos, n) == Some((x, pos + n)),
        pos + n <= bytes.len(),
        bytes.subrange(pos + n, bytes.len() as int) == rest,
{
    lemma_le_bytes_len(x, n);
    lemma_tail_after(bytes, pos, le_bytes(x, n), rest);
    lemma_le_round_trip(x, n);
}

/// Reading a public key from its serialization.
pub proof fn lemma_rd_pubkey(bytes: Seq<u8>, pos: int, p: Pubkey, rest: Seq<u8>)
    requires
        0 <= pos <= bytes.len(),
        bytes.subrange(pos, bytes.len() as int) == ser_pubkey(p) + rest,
    ensures
        rd_pubkey(bytes, pos) == Some((p, pos + 32)),
        pos + 32 <= bytes.len(),
        bytes.subrange(pos + 32, bytes.len() as int) == rest,
{
    lemma_pow256_values();
    assert(bytes.subrange(pos, bytes.len() as int) == le_bytes(p.a as nat, 16) + (le_bytes(
        p.b as nat,
        16,
    ) + rest)) by {
        assert(ser_pubkey(p) + rest =~= le_bytes(p.a as nat, 16) + (le_bytes(p.b as nat, 16)
            + rest));
    };
    lemma_rd_le(bytes, pos, 16, p.a as nat, le_bytes(p.b as nat, 16) + rest);
    lemma_rd_le(bytes, pos + 16, 16, p.b as nat, rest);
}

/// Reading a signature from its serialization.
pub proof fn lemma_rd_sig(bytes: Seq<u8>, pos: int, s: Signature, rest: Seq<u8>)
    requires
        0 <= pos <= bytes.len(),
        bytes.subrange(pos, bytes.len() as int) == ser_sig(s) + rest,
    ensures
        rd_sig(bytes, pos) == Some((s, pos + 64)),
        pos + 64 <= bytes.len(),
        bytes.subrange(pos + 64, bytes.len() as int) == rest,
{
    lemma_pow256_values();
    let ra = le_bytes(s.a as nat, 16);
    let rb = le_bytes(s.b as nat, 16);
    let rc = le_bytes(s.c as nat, 16);
    let rd = le_bytes(s.d as nat, 16);
    assert(bytes.subrange(pos, bytes.len() as int) == ra + (rb + (rc + (rd + rest)))) by {
        assert(ser_sig(s) + rest =~= ra + (rb + (rc + (rd + rest))));
    };
    lemma_rd_le(bytes, pos, 16, s.a as nat, rb + (rc + (rd + rest)));
    lemma_rd_le(bytes, pos + 16, 16, s.b as nat, rc + (rd + rest));
    lemma_rd_le(bytes, pos + 32, 16, s.c as nat, rd + rest);
    lemma_rd_le(bytes, pos + 48, 16, s.d as nat, rest);
}

/// Reading a socket address from its serialization.
pub proof fn lemma_rd_sock(bytes: Seq<u8>, pos: int, s: SocketAddress, rest: Seq<u8>)
    requires
        0 <= pos <= bytes.len(),
        bytes.subrange(pos, bytes.len() as int) == ser_sock(s) + rest,
    ensures
        rd_sock(bytes, pos) == Some((s, pos + ser_sock(s).len())),
        pos + ser_sock(s).len() <= bytes.len(),
        bytes.subrange(pos + ser_sock(s).len(), bytes.len() as int) == rest,
{
    lemma_pow256_values();
    let pb = le_bytes(s.port as nat, 2);
    match s.ip {
        IpAddress::V4(x) => {
            let xb = le_bytes(x as nat, 4);
            lemma_le_bytes_len(x as nat, 4);
            lemma_le_bytes_len(s.port as nat, 2);
            assert(bytes.subrange(pos, bytes.len() as int) == seq![4u8] + (xb + (pb + rest))) by {
                assert(ser_sock(s) + rest =~= seq![4u8] + (xb + (pb + rest)));
            };
            lemma_tail_after(bytes, pos, seq![4u8], xb + (pb + rest));
            assert(bytes[pos] == 4u8) by {
                assert(bytes.subrange(pos, pos + 1)[0] == seq![4u8][0]);
            };
            lemma_rd_le(bytes, pos + 1, 4, x as nat, pb + rest);
            lemma_rd_le(bytes, pos + 5, 2, s.port as nat, rest);
            assert(ser_sock(s).len() == 7);
        },
        IpAddress::V6(x) => {
            let xb = le_bytes(x as nat, 16);
            lemma_le_bytes_len(x as nat, 16);
            lemma_le_bytes_len(s.port as nat, 2);
            assert(bytes.subrange(pos, bytes.len() as int) == seq![6u8] + (xb + (pb + rest))) by {
                assert(ser_sock(s) + rest =~= seq![6u8] + (xb + (pb + rest)));
            };
            lemma_tail_after(bytes, pos, seq![6u8], xb + (pb + rest));
            assert(bytes[pos] == 6u8) by {
                assert(bytes.subrange(pos, pos + 1)[0] == seq![6u8][0]);
            };
            lemma_rd_le(bytes, pos + 1, 16, x as nat, pb + rest);
            lemma_rd_le(bytes, pos + 17, 2, s.port as nat, rest);
            assert(ser_sock(s).len() == 19);
        },
    }
}

/// Reading a contact record from its serialization.
#[verifier::rlimit(50)]
pub proof fn lemma_rd_contact_info(bytes: Seq<u8>, pos: int, c: ContactInfo, rest: Seq<u8>)
    requires
        0 <= pos <= bytes.len(),
        bytes.subrange(pos, bytes.len() as int) == ser_contact_info(c) + rest,
    ensures
        rd_contact_info(bytes, pos) == Some((c, pos + ser_contact_info(c).len())),
        pos + ser_contact_info(c).len() <= bytes.len(),
        bytes.subrange(pos + ser_contact_info(c).len(), bytes.len() as int) == rest,
{
    lemma_pow256_values();
    let s1 = ser_sock(c.gossip);
    let s2 = ser_sock(c.tvu);
    let s3 = ser_sock(c.tpu);
    let s4 = ser_sock(c.storage);
    let s5 = ser_sock(c.rpc);
    let s6 = ser_sock(c.rpc_pubsub);
    let wb = le_bytes(c.wallclock as nat, 8);
    assert(bytes.subrange(pos, bytes.len() as int) == ser_pubkey(c.id) + (s1 + (s2 + (s3 + (s4 + (
    s5 + (s6 + (wb + rest)))))))) by {
        assert(ser_contact_info(c) + rest =~= ser_pubkey(c.id) + (s1 + (s2 + (s3 + (s4 + (s5 + (s6
            + (wb + rest))))))));
    };
    lemma_rd_pubkey(bytes, pos, c.id, s1 + (s2 + (s3 + (s4 + (s5 + (s6 + (wb + rest)))))));
    let p1 = pos + 32;
    lemma_rd_sock(bytes, p1, c.gossip, s2 + (s3 + (s4 + (s5 + (s6 + (wb + rest))))));
    let p2 = p1 + s1.len();
    lemma_rd_sock(bytes, p2, c.tvu, s3 + (s4 + (s5 + (s6 + (wb + rest)))));
    let p3 = p2 + s2.len();
    lemma_rd_sock(bytes, p3, c.tpu, s4 + (s5 + (s6 + (wb + rest))));
    let p4 = p3 + s3.len();
    lemma_rd_sock(bytes, p4, c.storage, s5 + (s6 + (wb + rest)));
    let p5 = p4 + s4.len();
    lemma_rd_sock(bytes, p5, c.rpc, s6 + (wb + rest));
    let p6 = p5 + s5.len();
    lemma_rd_sock(bytes, p6, c.rpc_pubsub, wb + rest);
    let p7 = p6 + s6.len();
    lemma_rd_le(bytes, p7, 8, c.wallclock as nat, rest);
    lemma_le_bytes_len(c.wallclock as nat, 8);
    lemma_ser_pubkey_len(c.id);
    assert(ser_contact_info(c).len() == 32 + s1.len() + s2.len() + s3.len() + s4.len() + s5.len()
        + s6.len() + 8);
}

/// Reading a leader opinion from its serialization.
pub proof fn lemma_rd_leader_id(bytes: Seq<u8>, pos: int, l: LeaderId, rest: Seq<u8>)
    requires
        0 <= pos <= bytes.len(),
        bytes.subrange(pos, bytes.len() as int) == ser_leader_id(l) + rest,
    ensures
        rd_leader_id(bytes, pos) == Some((l, pos + ser_leader_id(l).len())),
        pos + ser_leader_id(l).len() <= bytes.len(),
        bytes.subrange(pos + ser_leader_id(l).len(), bytes.len() as int) == rest,
{
    lemma_pow256_values();
    let wb = le_bytes(l.wallclock as nat, 8);
    assert(bytes.subrange(pos, bytes.len() as int) == ser_pubkey(l.from) + (ser_pubkey(l.leader_id)
        + (wb + rest))) by {
        assert(ser_leader_id(l) + rest =~= ser_pubkey(l.from) + (ser_pubkey(l.leader_id) + (wb
            + rest)));
    };
    lemma_rd_pubkey(bytes, pos, l.from, ser_pubkey(l.leader_id) + (wb + rest));
    lemma_rd_pubkey(bytes, pos + 32, l.leader_id, wb + rest);
    lemma_rd_le(bytes, pos + 64, 8, l.wallclock as nat, rest);
    lemma_le_bytes_len(l.wallclock as nat, 8);
    lemma_ser_pubkey_len(l.from);
    lemma_ser_pubkey_len(l.leader_id);
}

/// Reading a length-prefixed byte string from its serialization.
pub proof fn lemma_rd_bytes_field(bytes: Seq<u8>, pos: int, b: Seq<u8>, rest: Seq<u8>)
    requires
        0 <= pos <= bytes.len(),
        b.len() < 0x1_0000_0000,
        bytes.subrange(pos, bytes.len() as int) == ser_bytes_field(b) + rest,
    ensures
        rd_bytes_field(bytes, pos) == Some((b, pos + ser_bytes_field(b).len())),
        pos + ser_bytes_field(b).len() <= bytes.len(),
        bytes.subrange(pos + ser_bytes_field(b).len(), bytes.len() as int) == rest,
{
    lemma_pow256_values();
    let lb = le_bytes(b.len(), 8);
    lemma_le_bytes_len(b.len(), 8);
    assert(bytes.subrange(pos, bytes.len() as int) == lb + (b + rest)) by {
        assert(ser_bytes_field(b) + rest =~= lb + (b + rest));
    };
    lemma_rd_le(bytes, pos, 8, b.len(), b + rest);
    lemma_tail_after(bytes, pos + 8, b, rest);
}

/// Reading a vote from its serialization.
pub proof fn lemma_rd_vote(bytes: Seq<u8>, pos: int, v: VoteV, rest: Seq<u8>)
    requires
        0 <= pos <= bytes.len(),
        v.transaction.len() < 0x1_0000_0000,
        bytes.subrange(pos, bytes.len() as int) == ser_vote(v) + rest,
    ensures
        rd_vote(bytes, pos) == Some((v, pos + ser_vote(v).len())),
        pos + ser_vote(v).len() <= bytes.len(),
        bytes.subrange(pos + ser_vote(v).len(), bytes.len() as int) == rest,
{
    lemma_pow256_values();
    let tb = ser_bytes_field(v.transaction);
    let wb = le_bytes(v.wallclock as nat, 8);
    assert(bytes.subrange(pos, bytes.len() as int) == ser_pubkey(v.from) + (tb + (wb + rest))) by {
        assert(ser_vote(v) + rest =~= ser_pubkey(v.from) + (tb + (wb + rest)));
    };
    lemma_ser_pubkey_len(v.from);
    lemma_rd_pubkey(bytes, pos, v.from, tb + (wb + rest));
    lemma_rd_bytes_field(bytes, pos + 32, v.transaction, wb + rest);
    lemma_rd_le(bytes, pos + 32 + tb.len(), 8, v.wallclock as nat, rest);
    lemma_le_bytes_len(v.wallclock as nat, 8);
}

/// Reading a payload from its serialization.
pub proof fn lemma_rd_data(bytes: Seq<u8>, pos: int, d: CrdsDataV, rest: Seq<u8>)
    requires
        0 <= pos <= bytes.len(),
        data_wf(d),
        bytes.subrange(pos, bytes.len() as int) == ser_data(d) + rest,
    ensures
        rd_data(bytes, pos) == Some((d, pos + ser_data(d).len())),
        pos + ser_data(d).len() <= bytes.len(),
        bytes.subrange(pos + ser_data(d).len(), bytes.len() as int) == rest,
{
    match d {
        CrdsDataV::ContactInfo(c) => {
            assert(bytes.subrange(pos, bytes.len() as int) == seq![0u8] + (ser_contact_info(c)
                + rest)) by {
                assert(ser_data(d) + rest =~= seq![0u8] + (ser_contact_info(c) + rest));
            };
            lemma_tail_after(bytes, pos, seq![0u8], ser_contact_info(c) + rest);
            assert(bytes[pos] == 0u8) by {
                assert(bytes.subrange(pos, pos + 1)[0] == seq![0u8][0]);
            };
            lemma_rd_contact_info(bytes, pos + 1, c, rest);
        },
        CrdsDataV::LeaderId(l) => {
            assert(bytes.subrange(pos, bytes.len() as int) == seq![1u8] + (ser_leader_id(l)
                + rest)) by {
                assert(ser_data(d) + rest =~= seq![1u8] + (ser_leader_id(l) + rest));
            };
            lemma_tail_after(bytes, pos, seq![1u8], ser_leader_id(l) + rest);
            assert(bytes[pos] == 1u8) by {
                assert(bytes.subrange(pos, pos + 1)[0] == seq![1u8][0]);
            };
            lemma_rd_leader_id(bytes, pos + 1, l, rest);
        },
        CrdsDataV::Vote(v) => {
            assert(bytes.subrange(pos, bytes.len() as int) == seq![2u8] + (ser_vote(v) + rest))
                by {
                assert(ser_data(d) + rest =~= seq![2u8] + (ser_vote(v) + rest));
            };
            lemma_tail_after(bytes, pos, seq![2u8], ser_vote(v) + rest);
            assert(bytes[pos] == 2u8) by {
                assert(bytes.subrange(pos, pos + 1)[0] == seq![2u8][0]);
            };
            lemma_rd_vote(bytes, pos + 1, v, rest);
        },
    }
}

/// Reading a signed value from its serialization.
pub proof fn lemma_rd_value(bytes: Seq<u8>, pos: int, v: CrdsValueV, rest: Seq<u8>)
    requires
        0 <= pos <= bytes.len(),
        value_wf(v),
        bytes.subrange(pos, bytes.len() as int) == ser_value(v) + rest,
    ensures
        rd_value(bytes, pos) == Some((v, pos + ser_value(v).len())),
        pos + ser_value(v).len() <= bytes.len(),
        bytes.subrange(pos + ser_value(v).len(), bytes.len() as int) == rest,
{
    assert(bytes.subrange(pos, bytes.len() as int) == ser_data(v.data) + (ser_sig(v.signature)
        + rest)) by {
        assert(ser_value(v) + rest =~= ser_data(v.data) + (ser_sig(v.signature) + rest));
    };
    lemma_rd_data(bytes, pos, v.data, ser_sig(v.signature) + rest);
    lemma_rd_sig(bytes, pos + ser_data(v.data).len(), v.signature, rest);
    lemma_ser_sig_len(v.signature);
}

// ---------------------------------------------------------------------------
// Executable writers.
// ---------------------------------------------------------------------------
/// Appends a public key.
pub fn write_pubkey(out: &mut Vec<u8>, p: &Pubkey)
    ensures
        final(out)@ == old(out)@ + ser_pubkey(*p),
{
    proof {
        lemma_pow256_values();
    }
    put_le(out, p.a, 16);
    put_le(out, p.b, 16);
    proof {
        assert(out@ =~= old(out)@ + ser_pubkey(*p));
    }
}

/// Appends a signature.
pub fn write_sig(out: &mut Vec<u8>, s: &Signature)
    ensures
        final(out)@ == old(out)@ + ser_sig(*s),
{
    proof {
        lemma_pow256_values();
    }
    put_le(out, s.a, 16);
    put_le(out, s.b, 16);
    put_le(out, s.c, 16);
    put_le(out, s.d, 16);
    proof {
        assert(out@ =~= old(out)@ + ser_sig(*s));
    }
}

/// Appends a socket address.
pub fn write_sock(out: &mut Vec<u8>, s: &SocketAddress)
    ensures
        final(out)@ == old(out)@ + ser_sock(*s),
{
    proof {
        lemma_pow256_values();
    }
    match s.ip {
        IpAddress::V4(x) => {
            out.push(4u8);
            proof {
                assert(out@ =~= old(out)@ + seq![4u8]);
            }
            put_le(out, x as u128, 4);
        },
        IpAddress::V6(x) => {
            out.push(6u8);
            proof {
                assert(out@ =~= old(out)@ + seq![6u8]);
            }
            put_le(out, x as u128, 16);
        },
    }
    put_le(out, s.port as u128, 2);
    proof {
        assert(out@ =~= old(out)@ + ser_sock(*s));
    }
}

/// Appends a contact record.
pub fn write_contact_info(out: &mut Vec<u8>, c: &ContactInfo)
    ensures
        final(out)@ == old(out)@ + ser_contact_info(*c),
{
    proof {
        lemma_pow256_values();
    }
    write_pubkey(out, &c.id);
    write_sock(out, &c.gossip);
    write_sock(out, &c.tvu);
    write_sock(out, &c.tpu);
    write_sock(out, &c.storage);
    write_sock(out, &c.rpc);
    write_sock(out, &c.rpc_pubsub);
    put_le(out, c.wallclock as u128, 8);
    proof {
        assert(out@ =~= old(out)@ + ser_contact_info(*c));
    }
}

/// Appends a leader opinion.
pub fn write_leader_id(out: &mut Vec<u8>, l: &LeaderId)
    ensures
        final(out)@ == old(out)@ + ser_leader_id(*l),
{
    proof {
        lemma_pow256_values();
    }
    write_pubkey(out, &l.from);
    write_pubkey(out, &l.leader_id);
    put_le(out, l.wallclock as u128, 8);
    proof {
        assert(out@ =~= old(out)@ + ser_leader_id(*l));
    }
}

/// Appends a length-prefixed byte string.
pub fn write_bytes_field(out: &mut Vec<u8>, b: &Vec<u8>)
    requires
        b@.len() < 0x1_0000_0000,
    ensures
        final(out)@ == old(out)@ + ser_bytes_field(b@),
{
    proof {
        lemma_pow256_values();
    }
    put_le(out, b.len() as u128, 8);
    let mut i: usize = 0;
    let ghost mid = out@;
    while i < b.len()
        invariant
            i <= b@.len(),
            out@ == mid + b@.subrange(0, i as int),
        decreases b@.len() - i,
    {
        out.push(b[i]);
        proof {
            assert(out@ =~= mid + b@.subrange(0, i + 1));
        }
        i = i + 1;
    }
    proof {
        assert(b@.subrange(0, b@.len() as int) =~= b@);
        assert(out@ =~= old(out)@ + ser_bytes_field(b@));
    }
}

/// Appends a vote.
pub fn write_vote(out: &mut Vec<u8>, v: &Vote)
    requires
        v@.transaction.len() < 0x1_0000_0000,
    ensures
        final(out)@ == old(out)@ + ser_vote(v@),
{
    proof {
        lemma_pow256_values();
    }
    write_pubkey(out, &v.from);
    write_bytes_field(out, &v.transaction.data);
    put_le(out, v.wallclock as u128, 8);
    proof {
        assert(out@ =~= old(out)@ + ser_vote(v@));
    }
}

/// Appends a payload.
pub fn write_data(out: &mut Vec<u8>, d: &CrdsData)
    requires
        data_wf(d@),
    ensures
        final(out)@ == old(out)@ + ser_data(d@),
{
    match d {
        CrdsData::ContactInfo(c) => {
            out.push(0u8);
            proof {
                assert(out@ =~= old(out)@ + seq![0u8]);
            }
            write_contact_info(out, c);
        },
        CrdsData::LeaderId(l) => {
            out.push(1u8);
            proof {
                assert(out@ =~= old(out)@ + seq![1u8]);
            }
            write_leader_id(out, l);
        },
        CrdsData::Vote(v) => {
            out.push(2u8);
            proof {
                assert(out@ =~= old(out)@ + seq![2u8]);
            }
            write_vote(out, v);
        },
    }
    proof {
        assert(out@ =~= old(out)@ + ser_data(d@));
    }
}

/// The canonical bytes a value's signature covers: its serialized payload.
pub fn serialize_data(d: &CrdsData) -> (r: Vec<u8>)
    requires
        data_wf(d@),
    ensures
        r@ == ser_data(d@),
{
    let mut out: Vec<u8> = Vec::new();
    write_data(&mut out, d);
    proof {
        assert(out@ =~= ser_data(d@));
    }
    out
}

/// The full serialization of a signed value, as hashed for the store.
pub fn serialize_value_bytes(v: &CrdsValue) -> (r: Vec<u8>)
    requires
        value_wf(v@),
    ensures
        r@ == ser_value(v@),
{
    let mut out: Vec<u8> = Vec::new();
    write_value(&mut out, v);
    proof {
        assert(out@ =~= ser_value(v@));
    }
    out
}

/// Appends a signed value.
pub fn write_value(out: &mut Vec<u8>, v: &CrdsValue)
    requires
        value_wf(v@),
    ensures
        final(out)@ == old(out)@ + ser_value(v@),
{
    write_data(out, &v.data);
    write_sig(out, &v.signature);
    proof {
        assert(out@ =~= old(out)@ + ser_value(v@));
    }
}

// ---------------------------------------------------------------------------
// Executable readers.
// ---------------------------------------------------------------------------
/// Reads `n` little-endian bytes at `pos` as a number.
pub fn read_le(bytes: &Vec<u8>, pos: usize, n: usize) -> (r: Option<(u128, usize)>)
    requires
        n <= 16,
    ensures
        match r {
            Some((v, end)) => rd_le(bytes@, pos as int, n as nat) == Some((v as nat, end as int)),
            None => rd_le(bytes@, pos as int, n as nat) is None,
        },
{
    let blen = bytes.len();
    if pos <= blen && n <= blen - pos {
        let v = get_le(bytes, pos, n);
        proof {
            crate::bytes::lemma_le_val_bound(bytes@.subrange(pos as int, pos as int + n as int));
            crate::bytes::lemma_pow256_mono(n as nat, 16);
        }
        Some((v, pos + n))
    } else {
        None
    }
}

/// Reads a public key.
pub fn read_pubkey(bytes: &Vec<u8>, pos: usize) -> (r: Option<(Pubkey, usize)>)
    ensures
        match r {
            Some((v, end)) => rd_pubkey(bytes@, pos as int) == Some((v, end as int)),
            None => rd_pubkey(bytes@, pos as int) is None,
        },
{
    let blen = bytes.len();
    if pos <= blen && 32 <= blen - pos {
        let a = get_le(bytes, pos, 16);
        let b = get_le(bytes, pos + 16, 16);
        proof {
            lemma_pow256_values();
            crate::bytes::lemma_le_val_bound(bytes@.subrange(pos as int, pos as int + 16));
            crate::bytes::lemma_le_val_bound(bytes@.subrange(pos as int + 16, pos as int + 32));
        }
        Some((Pubkey { a, b }, pos + 32))
    } else {
        None
    }
}

/// Reads a signature.
pub fn read_sig(bytes: &Vec<u8>, pos: usize) -> (r: Option<(Signature, usize)>)
    ensures
        match r {
            Some((v, end)) => rd_sig(bytes@, pos as int) == Some((v, end as int)),
            None => rd_sig(bytes@, pos as int) is None,
        },
{
    let blen = bytes.len();
    if pos <= blen && 64 <= blen - pos {
        let a = get_le(bytes, pos, 16);
        let b = get_le(bytes, pos + 16, 16);
        let c = get_le(bytes, pos + 32, 16);
        let d = get_le(bytes, pos + 48, 16);
        proof {
            lemma_pow256_values();
            crate::bytes::lemma_le_val_bound(bytes@.subrange(pos as int, pos as int + 16));
            crate::bytes::lemma_le_val_bound(bytes@.subrange(pos as int + 16, pos as int + 32));
            crate::bytes::lemma_le_val_bound(bytes@.subrange(pos as int + 32, pos as int + 48));
            crate::bytes::lemma_le_val_bound(bytes@.subrange(pos as int + 48, pos as int + 64));
        }
        Some((Signature { a, b, c, d }, pos + 64))
    } else {
        None
    }
}

/// Reads a socket address.
pub fn read_sock(bytes: &Vec<u8>, pos: usize) -> (r: Option<(SocketAddress, usize)>)
    ensures
        match r {
            Some((v, end)) => rd_sock(bytes@, pos as int) == Some((v, end as int)),
            None => rd_sock(bytes@, pos as int) is None,
        },
{
    let blen = bytes.len();
    if !(pos < blen) {
        return None;
    }
    let tag = bytes[pos];
    proof {
        lemma_pow256_values();
    }
    if tag == 4 {
        if 7 <= blen - pos {
            let x = get_le(bytes, pos + 1, 4);
            let p = get_le(bytes, pos + 5, 2);
            proof {
                crate::bytes::lemma_le_val_bound(bytes@.subrange(pos as int + 1, pos as int + 5));
                crate::bytes::lemma_le_val_bound(bytes@.subrange(pos as int + 5, pos as int + 7));
            }
            Some((SocketAddress { ip: IpAddress::V4(x as u32), port: p as u16 }, pos + 7))
        } else {
            None
        }
    } else if tag == 6 {
        if 19 <= blen - pos {
            let x = get_le(bytes, pos + 1, 16);
            let p = get_le(bytes, pos + 17, 2);
            proof {
                crate::bytes::lemma_le_val_bound(bytes@.subrange(pos as int + 1, pos as int + 17));
                crate::bytes::lemma_le_val_bound(bytes@.subrange(pos as int + 17, pos as int + 19));
            }
            Some((SocketAddress { ip: IpAddress::V6(x), port: p as u16 }, pos + 19))
        } else {
            None
        }
    } else {
        None
    }
}

/// Reads a contact record.
pub fn read_contact_info(bytes: &Vec<u8>, pos: usize) -> (r: Option<(ContactInfo, usize)>)
    ensures
        match r {
            Some((v, end)) => rd_contact_info(bytes@, pos as int) == Some((v, end as int)),
            None => rd_contact_info(bytes@, pos as int) is None,
        },
{
    let (id, p1) = match read_pubkey(bytes, pos) {
        Some(x) => x,
        None => {
            return None;
        },
    };
    let (gossip, p2) = match read_sock(bytes, p1) {
        Some(x) => x,
        None => {
            return None;
        },
    };
    let (tvu, p3) = match read_sock(bytes, p2) {
        Some(x) => x,
        None => {
            return None;
        },
    };
    let (tpu, p4) = match read_sock(bytes, p3) {
        Some(x) => x,
        None => {
            return None;
        },
    };
    let (storage, p5) = match read_sock(bytes, p4) {
        Some(x) => x,
        None => {
            return None;
        },
    };
    let (rpc, p6) = match read_sock(bytes, p5) {
        Some(x) => x,
        None => {
            return None;
        },
    };
    let (rpc_pubsub, p7) = match read_sock(bytes, p6) {
        Some(x) => x,
        None => {
            return None;
        },
    };
    let (wc, p8) = match read_le(bytes, p7, 8) {
        Some(x) => x,
        None => {
            return None;
        },
    };
    proof {
        lemma_pow256_values();
        crate::bytes::lemma_le_val_bound(bytes@.subrange(p7 as int, p7 as int + 8));
    }
    Some(
        (
            ContactInfo {
                id,
                gossip,
                tvu,
                tpu,
                storage,
                rpc,
                rpc_pubsub,
                wallclock: wc as u64,
            },
            p8,
        ),
    )
}

/// Reads a leader opinion.
pub fn read_leader_id(bytes: &Vec<u8>, pos: usize) -> (r: Option<(LeaderId, usize)>)
    ensures
        match r {
            Some((v, end)) => rd_leader_id(bytes@, pos as int) == Some((v, end as int)),
            None => rd_leader_id(bytes@, pos as int) is None,
        },
{
    let (from, p1) = match read_pubkey(bytes, pos) {
        Some(x) => x,
        None => {
            return None;
        },
    };
    let (leader_id, p2) = match read_pubkey(bytes, p1) {
        Some(x) => x,
        None => {
            return None;
        },
    };
    let (wc, p3) = match read_le(bytes, p2, 8) {
        Some(x) => x,
        None => {
            return None;
        },
    };
    proof {
        lemma_pow256_values();
        crate::bytes::lemma_le_val_bound(bytes@.subrange(p2 as int, p2 as int + 8));
    }
    Some((LeaderId { from, leader_id, wallclock: wc as u64 }, p3))
}

/// Reads a length-prefixed byte string.
pub fn read_bytes_field(bytes: &Vec<u8>, pos: usize) -> (r: Option<(Vec<u8>, usize)>)
    ensures
        match r {
            Some((v, end)) => rd_bytes_field(bytes@, pos as int) == Some((v@, end as int)),
            None => rd_bytes_field(bytes@, pos as int) is None,
        },
{
    let blen = bytes.len();
    let (n128, p1) = match read_le(bytes, pos, 8) {
        Some(x) => x,
        None => {
            return None;
        },
    };
    if !(n128 < 0x1_0000_0000u128 && n128 <= (blen - p1) as u128) {
        return None;
    }
    let n = n128 as usize;
    let mut out: Vec<u8> = Vec::new();
    let mut i: usize = 0;
    while i < n
        invariant
            i <= n,
            p1 + n <= blen,
            blen == bytes@.len(),
            out@ == bytes@.subrange(p1 as int, p1 as int + i as int),
        decreases n - i,
    {
        out.push(bytes[p1 + i]);
        proof {
            assert(out@ =~= bytes@.subrange(p1 as int, p1 as int + i + 1));
        }
        i = i + 1;
    }
    Some((out, p1 + n))
}

/// Reads a vote.
pub fn read_vote(bytes: &Vec<u8>, pos: usize) -> (r: Option<(Vote, usize)>)
    ensures
        match r {
            Some((v, end)) => rd_vote(bytes@, pos as int) == Some((v@, end as int)),
            None => rd_vote(bytes@, pos as int) is None,
        },
{
    let (from, p1) = match read_pubkey(bytes, pos) {
        Some(x) => x,
        None => {
            return None;
        },
    };
    let (tx, p2) = match read_bytes_field(bytes, p1) {
        Some(x) => x,
        None => {
            return None;
        },
    };
    let (wc, p3) = match read_le(bytes, p2, 8) {
        Some(x) => x,
        None => {
            return None;
        },
    };
    proof {
        lemma_pow256_values();
        crate::bytes::lemma_le_val_bound(bytes@.subrange(p2 as int, p2 as int + 8));
    }
    Some((Vote { from, transaction: Transaction { data: tx }, wallclock: wc as u64 }, p3))
}

/// Reads a payload.
pub fn read_data(bytes: &Vec<u8>, pos: usize) -> (r: Option<(CrdsData, usize)>)
    ensures
        match r {
            Some((v, end)) => rd_data(bytes@, pos as int) == Some((v@, end as int)),
            None => rd_data(bytes@, pos as int) is None,
        },
{
    let blen = bytes.len();
    if !(pos < blen) {
        return None;
    }
    let tag = bytes[pos];
    if tag == 0 {
        match read_contact_info(bytes, pos + 1) {
            Some((c, p1)) => Some((CrdsData::ContactInfo(c), p1)),
            None => None,
        }
    } else if tag == 1 {
        match read_leader_id(bytes, pos + 1) {
            Some((l, p1)) => Some((CrdsData::LeaderId(l), p1)),
            None => None,
        }
    } else if tag == 2 {
        match read_vote(bytes, pos + 1) {
            Some((v, p1)) => Some((CrdsData::Vote(v), p1)),
            None => None,
        }
    } else {
        None
    }
}

/// Reads a signed value.
pub fn read_value(bytes: &Vec<u8>, pos: usize) -> (r: Option<(CrdsValue, usize)>)
    ensures
        match r {
            Some((v, end)) => rd_value(bytes@, pos as int) == Some((v@, end as int)),
            None => rd_value(bytes@, pos as int) is None,
        },
{
    let (data, p1) = match read_data(bytes, pos) {
        Some(x) => x,
        None => {
            return None;
        },
    };
    let (signature, p2) = match read_sig(bytes, p1) {
        Some(x) => x,
        None => {
            return None;
        },
    };
    Some((CrdsValue { data, signature }, p2))
}

// ---------------------------------------------------------------------------
// Lists: public keys, 64-bit words, signed values.
// ---------------------------------------------------------------------------
/// Combines an already-read prefix with the outcome of reading the remaining
/// items.
pub open spec fn combine_items<T>(prefix: Seq<T>, o: Option<(Seq<T>, int)>) -> Option<
    (Seq<T>, int),
> {
    match o {
        None => None,
        Some((s, e)) => Some((prefix + s, e)),
    }
}

/// The items of a key list, first to last.
pub open spec fn ser_pubkeys_items(ps: Seq<Pubkey>) -> Seq<u8>
    decreases ps.len(),
{
    if ps.len() == 0 {
        Seq::empty()
    } else {
        ser_pubkey(ps[0]) + ser_pubkeys_items(ps.drop_first())
    }
}

/// A length-prefixed key list.
pub open spec fn ser_pubkeys(ps: Seq<Pubkey>) -> Seq<u8> {
    le_bytes(ps.len(), 8) + ser_pubkeys_items(ps)
}

/// The items of a word list, first to last.
pub open spec fn ser_u64s_items(xs: Seq<u64>) -> Seq<u8>
    decreases xs.len(),
{
    if xs.len() == 0 {
        Seq::empty()
    } else {
        le_bytes(xs[0] as nat, 8) + ser_u64s_items(xs.drop_first())
    }
}

/// A length-prefixed word list.
pub open spec fn ser_u64s(xs: Seq<u64>) -> Seq<u8> {
    le_bytes(xs.len(), 8) + ser_u64s_items(xs)
}

/// The items of a value list, first to last.
pub open spec fn ser_values_items(vs: Seq<CrdsValueV>) -> Seq<u8>
    decreases vs.len(),
{
    if vs.len() == 0 {
        Seq::empty()
    } else {
        ser_value(vs[0]) + ser_values_items(vs.drop_first())
    }
}

/// A length-prefixed value list.
pub open spec fn ser_values(vs: Seq<CrdsValueV>) -> Seq<u8> {
    le_bytes(vs.len(), 8) + ser_values_items(vs)
}

/// A value list that fits the wire format.
pub open spec fn values_wf(vs: Seq<CrdsValueV>) -> bool {
    &&& vs.len() < 0x1_0000_0000
    &&& forall|i: int| 0 <= i < vs.len() ==> value_wf(#[trigger] vs[i])
}

/// Reads `count` keys.
pub open spec fn rd_pubkeys_items(bytes: Seq<u8>, pos: int, count: nat) -> Option<
    (Seq<Pubkey>, int),
>
    decreases count,
{
    if count == 0 {
        Some((Seq::empty(), pos))
    } else {
        match rd_pubkey(bytes, pos) {
            None => None,
            Some((p, p1)) => combine_items(seq![p], rd_pubkeys_items(bytes, p1, (count - 1) as nat)),
        }
    }
}

/// Reads a length-prefixed key list.
pub open spec fn rd_pubkeys(bytes: Seq<u8>, pos: int) -> Option<(Seq<Pubkey>, int)> {
    match rd_le(bytes, pos, 8) {
        None => None,
        Some((n, p1)) => if n < 0x1_0000_0000 {
            rd_pubkeys_items(bytes, p1, n)
        } else {
            None
        },
    }
}

/// Reads `count` words.
pub open spec fn rd_u64s_items(bytes: Seq<u8>, pos: int, count: nat) -> Option<(Seq<u64>, int)>
    decreases count,
{
    if count == 0 {
        Some((Seq::empty(), pos))
    } else {
        match rd_le(bytes, pos, 8) {
            None => None,
            Some((x, p1)) => combine_items(
                seq![x as u64],
                rd_u64s_items(bytes, p1, (count - 1) as nat),
            ),
        }
    }
}

/// Reads a length-prefixed word list.
pub open spec fn rd_u64s(bytes: Seq<u8>, pos: int) -> Option<(Seq<u64>, int)> {
    match rd_le(bytes, pos, 8) {
        None => None,
        Some((n, p1)) => if n < 0x1_0000_0000 {
            rd_u64s_items(bytes, p1, n)
        } else {
            None
        },
    }
}

/// Reads `count` signed values.
pub open spec fn rd_values_items(bytes: Seq<u8>, pos: int, count: nat) -> Option<
    (Seq<CrdsValueV>, int),
>
    decreases count,
{
    if count == 0 {
        Some((Seq::empty(), pos))
    } else {
        match rd_value(bytes, pos) {
            None => None,
            Some((v, p1)) => combine_items(seq![v], rd_values_items(bytes, p1, (count - 1) as nat)),
        }
    }
}

/// Reads a length-prefixed value list.
pub open spec fn rd_values(bytes: Seq<u8>, pos: int) -> Option<(Seq<CrdsValueV>, int)> {
    match rd_le(bytes, pos, 8) {
        None => None,
        Some((n, p1)) => if n < 0x1_0000_0000 {
            rd_values_items(bytes, p1, n)
        } else {
            None
        },
    }
}

/// Appending an item extends the item serialization at the back.
proof fn lemma_ser_pubkeys_items_snoc(ps: Seq<Pubkey>, x: Pubkey)
    ensures
        ser_pubkeys_items(ps.push(x)) == ser_pubkeys_items(ps) + ser_pubkey(x),
    decreases ps.len(),
{
    let whole = ps.push(x);
    if ps.len() == 0 {
        assert(whole.drop_first() =~= Seq::<Pubkey>::empty());
        assert(ser_pubkeys_items(whole.drop_first()) =~= Seq::<u8>::empty());
        assert(whole[0] == x);
        assert(ser_pubkeys_items(whole) =~= ser_pubkeys_items(ps) + ser_pubkey(x));
    } else {
        assert(whole.drop_first() =~= ps.drop_first().push(x));
        lemma_ser_pubkeys_items_snoc(ps.drop_first(), x);
        assert(whole[0] == ps[0]);
        assert(ser_pubkeys_items(whole) == ser_pubkey(ps[0]) + ser_pubkeys_items(
            ps.drop_first().push(x),
        ));
        assert(ser_pubkey(ps[0]) + (ser_pubkeys_items(ps.drop_first()) + ser_pubkey(x)) =~= (
        ser_pubkey(ps[0]) + ser_pubkeys_items(ps.drop_first())) + ser_pubkey(x));
    }
}

proof fn lemma_ser_u64s_items_snoc(xs: Seq<u64>, x: u64)
    ensures
        ser_u64s_items(xs.push(x)) == ser_u64s_items(xs) + le_bytes(x as nat, 8),
    decreases xs.len(),
{
    let whole = xs.push(x);
    if xs.len() == 0 {
        assert(whole.drop_first() =~= Seq::<u64>::empty());
        assert(ser_u64s_items(whole.drop_first()) =~= Seq::<u8>::empty());
        assert(whole[0] == x);
        assert(ser_u64s_items(whole) =~= ser_u64s_items(xs) + le_bytes(x as nat, 8));
    } else {
        assert(whole.drop_first() =~= xs.drop_first().push(x));
        lemma_ser_u64s_items_snoc(xs.drop_first(), x);
        assert(whole[0] == xs[0]);
        assert(ser_u64s_items(whole) == le_bytes(xs[0] as nat, 8) + ser_u64s_items(
            xs.drop_first().push(x),
        ));
        assert(le_bytes(xs[0] as nat, 8) + (ser_u64s_items(xs.drop_first()) + le_bytes(x as nat, 8))
            =~= (le_bytes(xs[0] as nat, 8) + ser_u64s_items(xs.drop_first())) + le_bytes(
            x as nat,
            8,
        ));
    }
}

proof fn lemma_ser_values_items_snoc(vs: Seq<CrdsValueV>, x: CrdsValueV)
    ensures
        ser_values_items(vs.push(x)) == ser_values_items(vs) + ser_value(x),
    decreases vs.len(),
{
    let whole = vs.push(x);
    if vs.len() == 0 {
        assert(whole.drop_first() =~= Seq::<CrdsValueV>::empty());
        assert(ser_values_items(whole.drop_first()) =~= Seq::<u8>::empty());
        assert(whole[0] == x);
        assert(ser_values_items(whole) =~= ser_values_items(vs) + ser_value(x));
    } else {
        assert(whole.drop_first() =~= vs.drop_first().push(x));
        lemma_ser_values_items_snoc(vs.drop_first(), x);
        assert(whole[0] == vs[0]);
        assert(ser_values_items(whole) == ser_value(vs[0]) + ser_values_items(
            vs.drop_first().push(x),
        ));
        assert(ser_value(vs[0]) + (ser_values_items(vs.drop_first()) + ser_value(x)) =~= (ser_value(
            vs[0],
        ) + ser_values_items(vs.drop_first())) + ser_value(x));
    }
}

/// Reading a key list's items from their serialization.
proof fn lemma_rd_pubkeys_items(bytes: Seq<u8>, pos: int, ps: Seq<Pubkey>, rest: Seq<u8>)
    requires
        0 <= pos <= bytes.len(),
        bytes.subrange(pos, bytes.len() as int) == ser_pubkeys_items(ps) + rest,
    ensures
        rd_pubkeys_items(bytes, pos, ps.len()) == Some((ps, pos + ser_pubkeys_items(ps).len())),
        pos + ser_pubkeys_items(ps).len() <= bytes.len(),
        bytes.subrange(pos + ser_pubkeys_items(ps).len(), bytes.len() as int) == rest,
    decreases ps.len(),
{
    if ps.len() == 0 {
        assert(bytes.subrange(pos, bytes.len() as int) =~= rest);
        assert(ser_pubkeys_items(ps).len() == 0);
    } else {
        let tail = ser_pubkeys_items(ps.drop_first());
        assert(bytes.subrange(pos, bytes.len() as int) == ser_pubkey(ps[0]) + (tail + rest)) by {
            assert(ser_pubkeys_items(ps) + rest =~= ser_pubkey(ps[0]) + (tail + rest));
        };
        lemma_rd_pubkey(bytes, pos, ps[0], tail + rest);
        lemma_rd_pubkeys_items(bytes, pos + 32, ps.drop_first(), rest);
        assert(seq![ps[0]] + ps.drop_first() =~= ps);
        lemma_ser_pubkey_len(ps[0]);
    }
}

/// Reading a length-prefixed key list from its serialization.
proof fn lemma_rd_pubkeys(bytes: Seq<u8>, pos: int, ps: Seq<Pubkey>, rest: Seq<u8>)
    requires
        0 <= pos <= bytes.len(),
        ps.len() < 0x1_0000_0000,
        bytes.subrange(pos, bytes.len() as int) == ser_pubkeys(ps) + rest,
    ensures
        rd_pubkeys(bytes, pos) == Some((ps, pos + ser_pubkeys(ps).len())),
        pos + ser_pubkeys(ps).len() <= bytes.len(),
        bytes.subrange(pos + ser_pubkeys(ps).len(), bytes.len() as int) == rest,
{
    lemma_pow256_values();
    let items = ser_pubkeys_items(ps);
    assert(bytes.subrange(pos, bytes.len() as int) == le_bytes(ps.len(), 8) + (items + rest)) by {
        assert(ser_pubkeys(ps) + rest =~= le_bytes(ps.len(), 8) + (items + rest));
    };
    lemma_rd_le(bytes, pos, 8, ps.len(), items + rest);
    lemma_rd_pubkeys_items(bytes, pos + 8, ps, rest);
    lemma_le_bytes_len(ps.len(), 8);
}

/// Reading a word list's items from their serialization.
proof fn lemma_rd_u64s_items(bytes: Seq<u8>, pos: int, xs: Seq<u64>, rest: Seq<u8>)
    requires
        0 <= pos <= bytes.len(),
        bytes.subrange(pos, bytes.len() as int) == ser_u64s_items(xs) + rest,
    ensures
        rd_u64s_items(bytes, pos, xs.len()) == Some((xs, pos + ser_u64s_items(xs).len())),
        pos + ser_u64s_items(xs).len() <= bytes.len(),
        bytes.subrange(pos + ser_u64s_items(xs).len(), bytes.len() as int) == rest,
    decreases xs.len(),
{
    lemma_pow256_values();
    if xs.len() == 0 {
        assert(bytes.subrange(pos, bytes.len() as int) =~= rest);
        assert(ser_u64s_items(xs).len() == 0);
    } else {
        let tail = ser_u64s_items(xs.drop_first());
        assert(bytes.subrange(pos, bytes.len() as int) == le_bytes(xs[0] as nat, 8) + (tail
            + rest)) by {
            assert(ser_u64s_items(xs) + rest =~= le_bytes(xs[0] as nat, 8) + (tail + rest));
        };
        lemma_rd_le(bytes, pos, 8, xs[0] as nat, tail + rest);
        lemma_rd_u64s_items(bytes, pos + 8, xs.drop_first(), rest);
        assert(seq![xs[0]] + xs.drop_first() =~= xs);
        lemma_le_bytes_len(xs[0] as nat, 8);
    }
}

/// Reading a length-prefixed word list from its serialization.
proof fn lemma_rd_u64s(bytes: Seq<u8>, pos: int, xs: Seq<u64>, rest: Seq<u8>)
    requires
        0 <= pos <= bytes.len(),
        xs.len() < 0x1_0000_0000,
        bytes.subrange(pos, bytes.len() as int) == ser_u64s(xs) + rest,
    ensures
        rd_u64s(bytes, pos) == Some((xs, pos + ser_u64s(xs).len())),
        pos + ser_u64s(xs).len() <= bytes.len(),
        bytes.subrange(pos + ser_u64s(xs).len(), bytes.len() as int) == rest,
{
    lemma_pow256_values();
    let items = ser_u64s_items(xs);
    assert(bytes.subrange(pos, bytes.len() as int) == le_bytes(xs.len(), 8) + (items + rest)) by {
        assert(ser_u64s(xs) + rest =~= le_bytes(xs.len(), 8) + (items + rest));
    };
    lemma_rd_le(bytes, pos, 8, xs.len(), items + rest);
    lemma_rd_u64s_items(bytes, pos + 8, xs, rest);
    lemma_le_bytes_len(xs.len(), 8);
}

/// Reading a value list's items from their serialization.
proof fn lemma_rd_values_items(bytes: Seq<u8>, pos: int, vs: Seq<CrdsValueV>, rest: Seq<u8>)
    requires
        0 <= pos <= bytes.len(),
        forall|i: int| 0 <= i < vs.len() ==> value_wf(#[trigger] vs[i]),
        bytes.subrange(pos, bytes.len() as int) == ser_values_items(vs) + rest,
    ensures
        rd_values_items(bytes, pos, vs.len()) == Some((vs, pos + ser_values_items(vs).len())),
        pos + ser_values_items(vs).len() <= bytes.len(),
        bytes.subrange(pos + ser_values_items(vs).len(), bytes.len() as int) == rest,
    decreases vs.len(),
{
    if vs.len() == 0 {
        assert(bytes.subrange(pos, bytes.len() as int) =~= rest);
        assert(ser_values_items(vs).len() == 0);
    } else {
        let tail = ser_values_items(vs.drop_first());
        assert(bytes.subrange(pos, bytes.len() as int) == ser_value(vs[0]) + (tail + rest)) by {
            assert(ser_values_items(vs) + rest =~= ser_value(vs[0]) + (tail + rest));
        };
        assert(value_wf(vs[0]));
        lemma_rd_value(bytes, pos, vs[0], tail + rest);
        assert(forall|i: int|
            0 <= i < vs.drop_first().len() ==> value_wf(#[trigger] vs.drop_first()[i]));
        lemma_rd_values_items(bytes, pos + ser_value(vs[0]).len(), vs.drop_first(), rest);
        assert(seq![vs[0]] + vs.drop_first() =~= vs);
    }
}

/// Reading a length-prefixed value list from its serialization.
proof fn lemma_rd_values(bytes: Seq<u8>, pos: int, vs: Seq<CrdsValueV>, rest: Seq<u8>)
    requires
        0 <= pos <= bytes.len(),
        values_wf(vs),
        bytes.subrange(pos, bytes.len() as int) == ser_values(vs) + rest,
    ensures
        rd_values(bytes, pos) == Some((vs, pos + ser_values(vs).len())),
        pos + ser_values(vs).len() <= bytes.len(),
        bytes.subrange(pos + ser_values(vs).len(), bytes.len() as int) == rest,
{
    lemma_pow256_values();
    let items = ser_values_items(vs);
    assert(bytes.subrange(pos, bytes.len() as int) == le_bytes(vs.len(), 8) + (items + rest)) by {
        assert(ser_values(vs) + rest =~= le_bytes(vs.len(), 8) + (items + rest));
    };
    lemma_rd_le(bytes, pos, 8, vs.len(), items + rest);
    lemma_rd_values_items(bytes, pos + 8, vs, rest);
    lemma_le_bytes_len(vs.len(), 8);
}

/// Appends a length-prefixed key list.
pub fn write_pubkeys(out: &mut Vec<u8>, ps: &Vec<Pubkey>)
    requires
        ps@.len() < 0x1_0000_0000,
    ensures
        final(out)@ == old(out)@ + ser_pubkeys(ps@),
{
    proof {
        lemma_pow256_values();
    }
    put_le(out, ps.len() as u128, 8);
    let ghost mid = out@;
    let mut i: usize = 0;
    while i < ps.len()
        invariant
            i <= ps@.len(),
            out@ == mid + ser_pubkeys_items(ps@.subrange(0, i as int)),
        decreases ps@.len() - i,
    {
        write_pubkey(out, &ps[i]);
        proof {
            lemma_ser_pubkeys_items_snoc(ps@.subrange(0, i as int), ps@[i as int]);
            assert(ps@.subrange(0, i + 1) =~= ps@.subrange(0, i as int).push(ps@[i as int]));
            assert(out@ =~= mid + ser_pubkeys_items(ps@.subrange(0, i + 1)));
        }
        i = i + 1;
    }
    proof {
        assert(ps@.subrange(0, ps@.len() as int) =~= ps@);
        assert(out@ =~= old(out)@ + ser_pubkeys(ps@));
    }
}

/// Appends a length-prefixed word list.
pub fn write_u64s(out: &mut Vec<u8>, xs: &Vec<u64>)
    requires
        xs@.len() < 0x1_0000_0000,
    ensures
        final(out)@ == old(out)@ + ser_u64s(xs@),
{
    proof {
        lemma_pow256_values();
    }
    put_le(out, xs.len() as u128, 8);
    let ghost mid = out@;
    let mut i: usize = 0;
    while i < xs.len()
        invariant
            i <= xs@.len(),
            out@ == mid + ser_u64s_items(xs@.subrange(0, i as int)),
        decreases xs@.len() - i,
    {
        proof {
            lemma_pow256_values();
        }
        put_le(out, xs[i] as u128, 8);
        proof {
            lemma_ser_u64s_items_snoc(xs@.subrange(0, i as int), xs@[i as int]);
            assert(xs@.subrange(0, i + 1) =~= xs@.subrange(0, i as int).push(xs@[i as int]));
            assert(out@ =~= mid + ser_u64s_items(xs@.subrange(0, i + 1)));
        }
        i = i + 1;
    }
    proof {
        assert(xs@.subrange(0, xs@.len() as int) =~= xs@);
        assert(out@ =~= old(out)@ + ser_u64s(xs@));
    }
}

/// Appends a length-prefixed value list.
pub fn write_values(out: &mut Vec<u8>, vs: &Vec<CrdsValue>)
    requires
        values_wf(crate::protocol::views_of_values(vs@)),
    ensures
        final(out)@ == old(out)@ + ser_values(crate::protocol::views_of_values(vs@)),
{
    proof {
        lemma_pow256_values();
        assert(crate::protocol::views_of_values(vs@).len() == vs@.len());
    }
    put_le(out, vs.len() as u128, 8);
    let ghost views = crate::protocol::views_of_values(vs@);
    let ghost mid = out@;
    let mut i: usize = 0;
    while i < vs.len()
        invariant
            i <= vs@.len(),
            views == crate::protocol::views_of_values(vs@),
            values_wf(views),
            views.len() == vs@.len(),
            out@ == mid + ser_values_items(views.subrange(0, i as int)),
        decreases vs@.len() - i,
    {
        proof {
            assert(views[i as int] == vs@[i as int]@);
            assert(value_wf(views[i as int]));
        }
        write_value(out, &vs[i]);
        proof {
            lemma_ser_values_items_snoc(views.subrange(0, i as int), views[i as int]);
            assert(views.subrange(0, i + 1) =~= views.subrange(0, i as int).push(views[i as int]));
            assert(out@ =~= mid + ser_values_items(views.subrange(0, i + 1)));
        }
        i = i + 1;
    }
    proof {
        assert(views.subrange(0, views.len() as int) =~= views);
        assert(out@ =~= old(out)@ + ser_values(views));
    }
}

/// Reads a length-prefixed key list.
pub fn read_pubkeys(bytes: &Vec<u8>, pos: usize) -> (r: Option<(Vec<Pubkey>, usize)>)
    ensures
        match r {
            Some((v, end)) => rd_pubkeys(bytes@, pos as int) == Some((v@, end as int)),
            None => rd_pubkeys(bytes@, pos as int) is None,
        },
{
    let (n128, p1) = match read_le(bytes, pos, 8) {
        Some(x) => x,
        None => {
            return None;
        },
    };
    if !(n128 < 0x1_0000_0000u128) {
        return None;
    }
    let count = n128 as usize;
    let mut out: Vec<Pubkey> = Vec::new();
    let mut cur: usize = p1;
    let mut i: usize = 0;
    proof {
        match rd_pubkeys_items(bytes@, p1 as int, count as nat) {
            None => {},
            Some((sq, e)) => {
                assert(Seq::<Pubkey>::empty() + sq =~= sq);
            },
        }
    }
    while i < count
        invariant
            i <= count,
            out@.len() == i,
            combine_items(out@, rd_pubkeys_items(bytes@, cur as int, (count - i) as nat))
                == rd_pubkeys(bytes@, pos as int),
        decreases count - i,
    {
        let (p, nxt) = match read_pubkey(bytes, cur) {
            Some(x) => x,
            None => {
                proof {
                    assert(rd_pubkeys_items(bytes@, cur as int, (count - i) as nat) is None);
                }
                return None;
            },
        };
        out.push(p);
        proof {
            assert(out@ =~= out@.subrange(0, out@.len() - 1) + seq![p]);
            assert(combine_items(
                out@.subrange(0, out@.len() - 1),
                combine_items(seq![p], rd_pubkeys_items(bytes@, nxt as int, (count - i - 1) as nat)),
            ) == combine_items(out@, rd_pubkeys_items(bytes@, nxt as int, (count - i - 1) as nat)))
                by {
                match rd_pubkeys_items(bytes@, nxt as int, (count - i - 1) as nat) {
                    None => {},
                    Some((s, e)) => {
                        assert(out@.subrange(0, out@.len() - 1) + (seq![p] + s) =~= out@ + s);
                    },
                }
            };
        }
        cur = nxt;
        i = i + 1;
    }
    proof {
        assert(rd_pubkeys_items(bytes@, cur as int, 0) == Some((Seq::<Pubkey>::empty(), cur as int)));
        assert(out@ + Seq::<Pubkey>::empty() =~= out@);
        assert(rd_pubkeys(bytes@, pos as int) == Some((out@, cur as int)));
    }
    Some((out, cur))
}

/// Reads a length-prefixed word list.
pub fn read_u64s(bytes: &Vec<u8>, pos: usize) -> (r: Option<(Vec<u64>, usize)>)
    ensures
        match r {
            Some((v, end)) => rd_u64s(bytes@, pos as int) == Some((v@, end as int)),
            None => rd_u64s(bytes@, pos as int) is None,
        },
{
    let (n128, p1) = match read_le(bytes, pos, 8) {
        Some(x) => x,
        None => {
            return None;
        },
    };
    if !(n128 < 0x1_0000_0000u128) {
        return None;
    }
    let count = n128 as usize;
    let mut out: Vec<u64> = Vec::new();
    let mut cur: usize = p1;
    let mut i: usize = 0;
    proof {
        match rd_u64s_items(bytes@, p1 as int, count as nat) {
            None => {},
            Some((sq, e)) => {
                assert(Seq::<u64>::empty() + sq =~= sq);
            },
        }
    }
    while i < count
        invariant
            i <= count,
            out@.len() == i,
            combine_items(out@, rd_u64s_items(bytes@, cur as int, (count - i) as nat)) == rd_u64s(
                bytes@,
                pos as int,
            ),
        decreases count - i,
    {
        let (x128, nxt) = match read_le(bytes, cur, 8) {
            Some(x) => x,
            None => {
                proof {
                    assert(rd_u64s_items(bytes@, cur as int, (count - i) as nat) is None);
                }
                return None;
            },
        };
        proof {
            lemma_pow256_values();
            crate::bytes::lemma_le_val_bound(bytes@.subrange(cur as int, cur as int + 8));
        }
        let x = x128 as u64;
        out.push(x);
        proof {
            assert(out@ =~= out@.subrange(0, out@.len() - 1) + seq![x]);
            assert(combine_items(
                out@.subrange(0, out@.len() - 1),
                combine_items(seq![x], rd_u64s_items(bytes@, nxt as int, (count - i - 1) as nat)),
            ) == combine_items(out@, rd_u64s_items(bytes@, nxt as int, (count - i - 1) as nat)))
                by {
                match rd_u64s_items(bytes@, nxt as int, (count - i - 1) as nat) {
                    None => {},
                    Some((s, e)) => {
                        assert(out@.subrange(0, out@.len() - 1) + (seq![x] + s) =~= out@ + s);
                    },
                }
            };
        }
        cur = nxt;
        i = i + 1;
    }
    proof {
        assert(rd_u64s_items(bytes@, cur as int, 0) == Some((Seq::<u64>::empty(), cur as int)));
        assert(out@ + Seq::<u64>::empty() =~= out@);
        assert(rd_u64s(bytes@, pos as int) == Some((out@, cur as int)));
    }
    Some((out, cur))
}

/// Reads a length-prefixed value list.
pub fn read_values(bytes: &Vec<u8>, pos: usize) -> (r: Option<(Vec<CrdsValue>, usize)>)
    ensures
        match r {
            Some((v, end)) => rd_values(bytes@, pos as int) == Some(
                (crate::protocol::views_of_values(v@), end as int),
            ),
            None => rd_values(bytes@, pos as int) is None,
        },
{
    let (n128, p1) = match read_le(bytes, pos, 8) {
        Some(x) => x,
        None => {
            return None;
        },
    };
    if !(n128 < 0x1_0000_0000u128) {
        return None;
    }
    let count = n128 as usize;
    let mut out: Vec<CrdsValue> = Vec::new();
    let mut cur: usize = p1;
    let mut i: usize = 0;
    proof {
        assert(views_of_values(out@) =~= Seq::<CrdsValueV>::empty());
        match rd_values_items(bytes@, p1 as int, count as nat) {
            None => {},
            Some((sq, e)) => {
                assert(Seq::<CrdsValueV>::empty() + sq =~= sq);
            },
        }
    }
    while i < count
        invariant
            i <= count,
            out@.len() == i,
            combine_items(
                views_of_values(out@),
                rd_values_items(bytes@, cur as int, (count - i) as nat),
            ) == rd_values(bytes@, pos as int),
        decreases count - i,
    {
        let ghost pre_views = views_of_values(out@);
        let (v, nxt) = match read_value(bytes, cur) {
            Some(x) => x,
            None => {
                proof {
                    assert(rd_values_items(bytes@, cur as int, (count - i) as nat) is None);
                }
                return None;
            },
        };
        let ghost vv = v@;
        out.push(v);
        proof {
            let views = crate::protocol::views_of_values(out@);
            assert(views =~= pre_views + seq![vv]);
            assert(combine_items(
                pre_views,
                combine_items(seq![vv], rd_values_items(bytes@, nxt as int, (count - i - 1) as nat)),
            ) == combine_items(views, rd_values_items(bytes@, nxt as int, (count - i - 1) as nat)))
                by {
                match rd_values_items(bytes@, nxt as int, (count - i - 1) as nat) {
                    None => {},
                    Some((s, e)) => {
                        assert(pre_views + (seq![vv] + s) =~= views + s);
                    },
                }
            };
        }
        cur = nxt;
        i = i + 1;
    }
    proof {
        assert(rd_values_items(bytes@, cur as int, 0) == Some(
            (Seq::<CrdsValueV>::empty(), cur as int),
        ));
        assert(views_of_values(out@) + Seq::<CrdsValueV>::empty() =~= views_of_values(out@));
        assert(rd_values(bytes@, pos as int) == Some((views_of_values(out@), cur as int)));
    }
    Some((out, cur))
}

// ---------------------------------------------------------------------------
// Bloom filters, prune payloads, and the envelope.
// ---------------------------------------------------------------------------
/// A bloom filter: its key seeds, then its bit words.
pub open spec fn ser_bloom(b: BloomV) -> Seq<u8> {
    ser_u64s(b.keys) + ser_u64s(b.bits)
}

/// Reads a bloom filter, refusing sizes outside the filter bounds.
pub open spec fn rd_bloom(bytes: Seq<u8>, pos: int) -> Option<(BloomV, int)> {
    match rd_u64s(bytes, pos) {
        None => None,
        Some((keys, p1)) => match rd_u64s(bytes, p1) {
            None => None,
            Some((bits, p2)) => if bloom_wf(BloomV { keys, bits }) {
                Some((BloomV { keys, bits }, p2))
            } else {
                None
            },
        },
    }
}

/// Reading a bloom filter from its serialization.
proof fn lemma_rd_bloom(bytes: Seq<u8>, pos: int, b: BloomV, rest: Seq<u8>)
    requires
        0 <= pos <= bytes.len(),
        bloom_wf(b),
        bytes.subrange(pos, bytes.len() as int) == ser_bloom(b) + rest,
    ensures
        rd_bloom(bytes, pos) == Some((b, pos + ser_bloom(b).len())),
        pos + ser_bloom(b).len() <= bytes.len(),
        bytes.subrange(pos + ser_bloom(b).len(), bytes.len() as int) == rest,
{
    assert(bytes.subrange(pos, bytes.len() as int) == ser_u64s(b.keys) + (ser_u64s(b.bits)
        + rest)) by {
        assert(ser_bloom(b) + rest =~= ser_u64s(b.keys) + (ser_u64s(b.bits) + rest));
    };
    lemma_rd_u64s(bytes, pos, b.keys, ser_u64s(b.bits) + rest);
    lemma_rd_u64s(bytes, pos + ser_u64s(b.keys).len(), b.bits, rest);
}

/// Appends a bloom filter.
pub fn write_bloom(out: &mut Vec<u8>, b: &Bloom)
    requires
        bloom_wf(b@),
    ensures
        final(out)@ == old(out)@ + ser_bloom(b@),
{
    write_u64s(out, &b.keys);
    write_u64s(out, &b.bits);
    proof {
        assert(out@ =~= old(out)@ + ser_bloom(b@));
    }
}

/// Reads a bloom filter.
pub fn read_bloom(bytes: &Vec<u8>, pos: usize) -> (r: Option<(Bloom, usize)>)
    ensures
        match r {
            Some((v, end)) => rd_bloom(bytes@, pos as int) == Some((v@, end as int)) && bloom_wf(
                v@,
            ),
            None => rd_bloom(bytes@, pos as int) is None,
        },
{
    let (keys, p1) = match read_u64s(bytes, pos) {
        Some(x) => x,
        None => {
            return None;
        },
    };
    let (bits, p2) = match read_u64s(bytes, p1) {
        Some(x) => x,
        None => {
            return None;
        },
    };
    if 1 <= bits.len() && bits.len() as u64 <= MAX_BLOOM_WORDS && keys.len() as u64
        <= MAX_BLOOM_KEYS && keys.len() <= 0xffff {
        Some((Bloom { keys, bits }, p2))
    } else {
        None
    }
}

/// The signed fields of a prune message, in order, without the signature:
/// sender, prunes, destination, wallclock.
pub open spec fn prune_signable(p: PruneDataV) -> Seq<u8> {
    ser_pubkey(p.pubkey) + ser_pubkeys(p.prunes) + ser_pubkey(p.destination) + le_bytes(
        p.wallclock as nat,
        8,
    )
}

/// A prune message on the wire: the signed fields with the signature between
/// the prunes and the destination.
pub open spec fn ser_prune_data(p: PruneDataV) -> Seq<u8> {
    ser_pubkey(p.pubkey) + ser_pubkeys(p.prunes) + ser_sig(p.signature) + ser_pubkey(p.destination)
        + le_bytes(p.wallclock as nat, 8)
}

/// A prune payload that fits the wire format.
pub open spec fn prune_wf(p: PruneDataV) -> bool {
    p.prunes.len() < 0x1_0000_0000
}

/// Reads a prune payload.
pub open spec fn rd_prune_data(bytes: Seq<u8>, pos: int) -> Option<(PruneDataV, int)> {
    match rd_pubkey(bytes, pos) {
        None => None,
        Some((pubkey, p1)) => match rd_pubkeys(bytes, p1) {
            None => None,
            Some((prunes, p2)) => match rd_sig(bytes, p2) {
                None => None,
                Some((signature, p3)) => match rd_pubkey(bytes, p3) {
                    None => None,
                    Some((destination, p4)) => match rd_le(bytes, p4, 8) {
                        None => None,
                        Some((wc, p5)) => Some(
                            (
                                PruneDataV {
                                    pubkey,
                                    prunes,
                                    signature,
                                    destination,
                                    wallclock: wc as u64,
                                },
                                p5,
                            ),
                        ),
                    },
                },
            },
        },
    }
}

/// Reading a prune payload from its serialization.
#[verifier::rlimit(50)]
proof fn lemma_rd_prune_data(bytes: Seq<u8>, pos: int, p: PruneDataV, rest: Seq<u8>)
    requires
        0 <= pos <= bytes.len(),
        prune_wf(p),
        bytes.subrange(pos, bytes.len() as int) == ser_prune_data(p) + rest,
    ensures
        rd_prune_data(bytes, pos) == Some((p, pos + ser_prune_data(p).len())),
        pos + ser_prune_data(p).len() <= bytes.len(),
        bytes.subrange(pos + ser_prune_data(p).len(), bytes.len() as int) == rest,
{
    lemma_pow256_values();
    let ks = ser_pubkeys(p.prunes);
    let sg = ser_sig(p.signature);
    let db = ser_pubkey(p.destination);
    let wb = le_bytes(p.wallclock as nat, 8);
    assert(bytes.subrange(pos, bytes.len() as int) == ser_pubkey(p.pubkey) + (ks + (sg + (db + (wb
        + rest))))) by {
        assert(ser_prune_data(p) + rest =~= ser_pubkey(p.pubkey) + (ks + (sg + (db + (wb
            + rest)))));
    };
    lemma_ser_pubkey_len(p.pubkey);
    lemma_ser_pubkey_len(p.destination);
    lemma_ser_sig_len(p.signature);
    lemma_rd_pubkey(bytes, pos, p.pubkey, ks + (sg + (db + (wb + rest))));
    lemma_rd_pubkeys(bytes, pos + 32, p.prunes, sg + (db + (wb + rest)));
    let p2 = pos + 32 + ks.len();
    lemma_rd_sig(bytes, p2, p.signature, db + (wb + rest));
    lemma_rd_pubkey(bytes, p2 + 64, p.destination, wb + rest);
    lemma_rd_le(bytes, p2 + 64 + 32, 8, p.wallclock as nat, rest);
    lemma_le_bytes_len(p.wallclock as nat, 8);
}

/// The canonical signed bytes of a prune message.
pub fn prune_signable_bytes(p: &PruneData) -> (r: Vec<u8>)
    requires
        p@.prunes.len() < 0x1_0000_0000,
    ensures
        r@ == prune_signable(p@),
{
    proof {
        lemma_pow256_values();
    }
    let mut out: Vec<u8> = Vec::new();
    write_pubkey(&mut out, &p.pubkey);
    write_pubkeys(&mut out, &p.prunes);
    write_pubkey(&mut out, &p.destination);
    put_le(&mut out, p.wallclock as u128, 8);
    proof {
        assert(out@ =~= prune_signable(p@));
    }
    out
}

/// Appends a prune payload.
pub fn write_prune_data(out: &mut Vec<u8>, p: &PruneData)
    requires
        prune_wf(p@),
    ensures
        final(out)@ == old(out)@ + ser_prune_data(p@),
{
    proof {
        lemma_pow256_values();
    }
    write_pubkey(out, &p.pubkey);
    write_pubkeys(out, &p.prunes);
    write_sig(out, &p.signature);
    write_pubkey(out, &p.destination);
    put_le(out, p.wallclock as u128, 8);
    proof {
        assert(out@ =~= old(out)@ + ser_prune_data(p@));
    }
}

/// Reads a prune payload.
pub fn read_prune_data(bytes: &Vec<u8>, pos: usize) -> (r: Option<(PruneData, usize)>)
    ensures
        match r {
            Some((v, end)) => rd_prune_data(bytes@, pos as int) == Some((v@, end as int)),
            None => rd_prune_data(bytes@, pos as int) is None,
        },
{
    let (pubkey, p1) = match read_pubkey(bytes, pos) {
        Some(x) => x,
        None => {
            return None;
        },
    };
    let (prunes, p2) = match read_pubkeys(bytes, p1) {
        Some(x) => x,
        None => {
            return None;
        },
    };
    let (signature, p3) = match read_sig(bytes, p2) {
        Some(x) => x,
        None => {
            return None;
        },
    };
    let (destination, p4) = match read_pubkey(bytes, p3) {
        Some(x) => x,
        None => {
            return None;
        },
    };
    let (wc, p5) = match read_le(bytes, p4, 8) {
        Some(x) => x,
        None => {
            return None;
        },
    };
    proof {
        lemma_pow256_values();
        crate::bytes::lemma_le_val_bound(bytes@.subrange(p4 as int, p4 as int + 8));
    }
    Some((PruneData { pubkey, prunes, signature, destination, wallclock: wc as u64 }, p5))
}

/// An envelope: a one-byte message tag, then the message's fields.
pub open spec fn ser_protocol(m: ProtocolV) -> Seq<u8> {
    match m {
        ProtocolV::PullRequest(b, v) => seq![0u8] + ser_bloom(b) + ser_value(v),
        ProtocolV::PullResponse(p, vs) => seq![1u8] + ser_pubkey(p) + ser_values(vs),
        ProtocolV::PushMessage(p, vs) => seq![2u8] + ser_pubkey(p) + ser_values(vs),
        ProtocolV::PruneMessage(p, d) => seq![3u8] + ser_pubkey(p) + ser_prune_data(d),
        ProtocolV::RequestWindowIndex(c, ix) => seq![4u8] + ser_contact_info(c) + le_bytes(
            ix as nat,
            8,
        ),
    }
}

/// An envelope that fits the wire format.
pub open spec fn protocol_wf(m: ProtocolV) -> bool {
    match m {
        ProtocolV::PullRequest(b, v) => bloom_wf(b) && value_wf(v),
        ProtocolV::PullResponse(p, vs) => values_wf(vs),
        ProtocolV::PushMessage(p, vs) => values_wf(vs),
        ProtocolV::PruneMessage(p, d) => prune_wf(d),
        ProtocolV::RequestWindowIndex(c, ix) => true,
    }
}

/// Reads an envelope.
pub open spec fn rd_protocol(bytes: Seq<u8>, pos: int) -> Option<(ProtocolV, int)> {
    if !(0 <= pos && pos + 1 <= bytes.len()) {
        None
    } else if bytes[pos] == 0u8 {
        match rd_bloom(bytes, pos + 1) {
            None => None,
            Some((b, p1)) => match rd_value(bytes, p1) {
                None => None,
                Some((v, p2)) => Some((ProtocolV::PullRequest(b, v), p2)),
            },
        }
    } else if bytes[pos] == 1u8 {
        match rd_pubkey(bytes, pos + 1) {
            None => None,
            Some((p, p1)) => match rd_values(bytes, p1) {
                None => None,
                Some((vs, p2)) => Some((ProtocolV::PullResponse(p, vs), p2)),
            },
        }
    } else if bytes[pos] == 2u8 {
        match rd_pubkey(bytes, pos + 1) {
            None => None,
            Some((p, p1)) => match rd_values(bytes, p1) {
                None => None,
                Some((vs, p2)) => Some((ProtocolV::PushMessage(p, vs), p2)),
            },
        }
    } else if bytes[pos] == 3u8 {
        match rd_pubkey(bytes, pos + 1) {
            None => None,
            Some((p, p1)) => match rd_prune_data(bytes, p1) {
                None => None,
                Some((d, p2)) => Some((ProtocolV::PruneMessage(p, d), p2)),
            },
        }
    } else if bytes[pos] == 4u8 {
        match rd_contact_info(bytes, pos + 1) {
            None => None,
            Some((c, p1)) => match rd_le(bytes, p1, 8) {
                None => None,
                Some((ix, p2)) => Some((ProtocolV::RequestWindowIndex(c, ix as u64), p2)),
            },
        }
    } else {
        None
    }
}

/// Reading an envelope from its serialization: the codec round trip.
#[verifier::rlimit(80)]
proof fn lemma_rd_protocol_pull_request(bytes: Seq<u8>, pos: int, m: ProtocolV, rest: Seq<u8>)
    requires
        0 <= pos <= bytes.len(),
        protocol_wf(m),
        m is PullRequest,
        bytes.subrange(pos, bytes.len() as int) == ser_protocol(m) + rest,
    ensures
        rd_protocol(bytes, pos) == Some((m, pos + ser_protocol(m).len())),
        pos + ser_protocol(m).len() <= bytes.len(),
        bytes.subrange(pos + ser_protocol(m).len(), bytes.len() as int) == rest,
{
    let b = m.arrow_PullRequest_0();
    let v = m.arrow_PullRequest_1();
    assert(bytes.subrange(pos, bytes.len() as int) == seq![0u8] + (ser_bloom(b) + (ser_value(v)
        + rest))) by {
        assert(ser_protocol(m) + rest =~= seq![0u8] + (ser_bloom(b) + (ser_value(v) + rest)));
    };
    lemma_tail_after(bytes, pos, seq![0u8], ser_bloom(b) + (ser_value(v) + rest));
    assert(bytes[pos] == 0u8) by {
        assert(bytes.subrange(pos, pos + 1)[0] == seq![0u8][0]);
    };
    lemma_rd_bloom(bytes, pos + 1, b, ser_value(v) + rest);
    lemma_rd_value(bytes, pos + 1 + ser_bloom(b).len(), v, rest);
}

#[verifier::rlimit(80)]
proof fn lemma_rd_protocol_pull_response(bytes: Seq<u8>, pos: int, m: ProtocolV, rest: Seq<u8>)
    requires
        0 <= pos <= bytes.len(),
        protocol_wf(m),
        m is PullResponse,
        bytes.subrange(pos, bytes.len() as int) == ser_protocol(m) + rest,
    ensures
        rd_protocol(bytes, pos) == Some((m, pos + ser_protocol(m).len())),
        pos + ser_protocol(m).len() <= bytes.len(),
        bytes.subrange(pos + ser_protocol(m).len(), bytes.len() as int) == rest,
{
    let p = m.arrow_PullResponse_0();
    let vs = m.arrow_PullResponse_1();
    assert(bytes.subrange(pos, bytes.len() as int) == seq![1u8] + (ser_pubkey(p) + (ser_values(vs)
        + rest))) by {
        assert(ser_protocol(m) + rest =~= seq![1u8] + (ser_pubkey(p) + (ser_values(vs) + rest)));
    };
    lemma_tail_after(bytes, pos, seq![1u8], ser_pubkey(p) + (ser_values(vs) + rest));
    assert(bytes[pos] == 1u8) by {
        assert(bytes.subrange(pos, pos + 1)[0] == seq![1u8][0]);
    };
    lemma_ser_pubkey_len(p);
    lemma_rd_pubkey(bytes, pos + 1, p, ser_values(vs) + rest);
    lemma_rd_values(bytes, pos + 33, vs, rest);
}

#[verifier::rlimit(80)]
proof fn lemma_rd_protocol_push_message(bytes: Seq<u8>, pos: int, m: ProtocolV, rest: Seq<u8>)
    requires
        0 <= pos <= bytes.len(),
        protocol_wf(m),
        m is PushMessage,
        bytes.subrange(pos, bytes.len() as int) == ser_protocol(m) + rest,
    ensures
        rd_protocol(bytes, pos) == Some((m, pos + ser_protocol(m).len())),
        pos + ser_protocol(m).len() <= bytes.len(),
        bytes.subrange(pos + ser_protocol(m).len(), bytes.len() as int) == rest,
{
    let p = m.arrow_PushMessage_0();
    let vs = m.arrow_PushMessage_1();
    assert(bytes.subrange(pos, bytes.len() as int) == seq![2u8] + (ser_pubkey(p) + (ser_values(vs)
        + rest))) by {
        assert(ser_protocol(m) + rest =~= seq![2u8] + (ser_pubkey(p) + (ser_values(vs) + rest)));
    };
    lemma_tail_after(bytes, pos, seq![2u8], ser_pubkey(p) + (ser_values(vs) + rest));
    assert(bytes[pos] == 2u8) by {
        assert(bytes.subrange(pos, pos + 1)[0] == seq![2u8][0]);
    };
    lemma_ser_pubkey_len(p);
    lemma_rd_pubkey(bytes, pos + 1, p, ser_values(vs) + rest);
    lemma_rd_values(bytes, pos + 33, vs, rest);
}

#[verifier::rlimit(80)]
proof fn lemma_rd_protocol_prune_message(bytes: Seq<u8>, pos: int, m: ProtocolV, rest: Seq<u8>)
    requires
        0 <= pos <= bytes.len(),
        protocol_wf(m),
        m is PruneMessage,
        bytes.subrange(pos, bytes.len() as int) == ser_protocol(m) + rest,
    ensures
        rd_protocol(bytes, pos) == Some((m, pos + ser_protocol(m).len())),
        pos + ser_protocol(m).len() <= bytes.len(),
        bytes.subrange(pos + ser_protocol(m).len(), bytes.len() as int) == rest,
{
    let p = m.arrow_PruneMessage_0();
    let d = m.arrow_PruneMessage_1();
    assert(bytes.subrange(pos, bytes.len() as int) == seq![3u8] + (ser_pubkey(p) + (
    ser_prune_data(d) + rest))) by {
        assert(ser_protocol(m) + rest =~= seq![3u8] + (ser_pubkey(p) + (ser_prune_data(d)
            + rest)));
    };
    lemma_tail_after(bytes, pos, seq![3u8], ser_pubkey(p) + (ser_prune_data(d) + rest));
    assert(bytes[pos] == 3u8) by {
        assert(bytes.subrange(pos, pos + 1)[0] == seq![3u8][0]);
    };
    lemma_ser_pubkey_len(p);
    lemma_rd_pubkey(bytes, pos + 1, p, ser_prune_data(d) + rest);
    lemma_rd_prune_data(bytes, pos + 33, d, rest);
}

#[verifier::rlimit(80)]
proof fn lemma_rd_protocol_window_index(bytes: Seq<u8>, pos: int, m: ProtocolV, rest: Seq<u8>)
    requires
        0 <= pos <= bytes.len(),
        protocol_wf(m),
        m is RequestWindowIndex,
        bytes.subrange(pos, bytes.len() as int) == ser_protocol(m) + rest,
    ensures
        rd_protocol(bytes, pos) == Some((m, pos + ser_protocol(m).len())),
        pos + ser_protocol(m).len() <= bytes.len(),
        bytes.subrange(pos + ser_protocol(m).len(), bytes.len() as int) == rest,
{
    lemma_pow256_values();
    let c = m.arrow_RequestWindowIndex_0();
    let ix = m.arrow_RequestWindowIndex_1();
    assert(bytes.subrange(pos, bytes.len() as int) == seq![4u8] + (ser_contact_info(c) + (le_bytes(
        ix as nat,
        8,
    ) + rest))) by {
        assert(ser_protocol(m) + rest =~= seq![4u8] + (ser_contact_info(c) + (le_bytes(ix as nat, 8)
            + rest)));
    };
    lemma_tail_after(bytes, pos, seq![4u8], ser_contact_info(c) + (le_bytes(ix as nat, 8) + rest));
    assert(bytes[pos] == 4u8) by {
        assert(bytes.subrange(pos, pos + 1)[0] == seq![4u8][0]);
    };
    lemma_rd_contact_info(bytes, pos + 1, c, le_bytes(ix as nat, 8) + rest);
    lemma_rd_le(bytes, pos + 1 + ser_contact_info(c).len(), 8, ix as nat, rest);
    lemma_le_bytes_len(ix as nat, 8);
}

/// Reading an envelope from its serialization.
pub proof fn lemma_rd_protocol(bytes: Seq<u8>, pos: int, m: ProtocolV, rest: Seq<u8>)
    requires
        0 <= pos <= bytes.len(),
        protocol_wf(m),
        bytes.subrange(pos, bytes.len() as int) == ser_protocol(m) + rest,
    ensures
        rd_protocol(bytes, pos) == Some((m, pos + ser_protocol(m).len())),
        pos + ser_protocol(m).len() <= bytes.len(),
        bytes.subrange(pos + ser_protocol(m).len(), bytes.len() as int) == rest,
{
    match m {
        ProtocolV::PullRequest(b, v) => lemma_rd_protocol_pull_request(bytes, pos, m, rest),
        ProtocolV::PullResponse(p, vs) => lemma_rd_protocol_pull_response(bytes, pos, m, rest),
        ProtocolV::PushMessage(p, vs) => lemma_rd_protocol_push_message(bytes, pos, m, rest),
        ProtocolV::PruneMessage(p, d) => lemma_rd_protocol_prune_message(bytes, pos, m, rest),
        ProtocolV::RequestWindowIndex(c, ix) => lemma_rd_protocol_window_index(bytes, pos, m, rest),
    }
}

/// Serializing then deserializing an envelope yields it back: the round-trip
/// law of the wire codec, stated for the spec reader that
/// `deserialize_protocol` is proved equal to.
pub proof fn lemma_protocol_round_trip(m: ProtocolV)
    requires
        protocol_wf(m),
    ensures
        rd_protocol(ser_protocol(m), 0) == Some((m, ser_protocol(m).len() as int)),
{
    let bytes = ser_protocol(m);
    assert(bytes.subrange(0, bytes.len() as int) =~= ser_protocol(m) + Seq::<u8>::empty());
    lemma_rd_protocol(bytes, 0, m, Seq::empty());
}

/// Whether a value fits the wire format's length fields.
pub fn value_is_wf(v: &CrdsValue) -> (r: bool)
    ensures
        r == value_wf(v@),
{
    match &v.data {
        CrdsData::Vote(vote) => (vote.transaction.data.len() as u64) < 0x1_0000_0000u64,
        _ => true,
    }
}

/// Whether every value in a list fits the wire format.
pub fn values_are_wf(vs: &Vec<CrdsValue>) -> (r: bool)
    ensures
        r == values_wf(views_of_values(vs@)),
{
    if !((vs.len() as u64) < 0x1_0000_0000u64) {
        return false;
    }
    let ghost views = views_of_values(vs@);
    let mut i: usize = 0;
    while i < vs.len()
        invariant
            i <= vs@.len(),
            views == views_of_values(vs@),
            views.len() == vs@.len(),
            vs@.len() < 0x1_0000_0000,
            forall|k: int| 0 <= k < i ==> value_wf(#[trigger] views[k]),
        decreases vs@.len() - i,
    {
        if !value_is_wf(&vs[i]) {
            proof {
                assert(views[i as int] == vs@[i as int]@);
            }
            return false;
        }
        proof {
            assert(views[i as int] == vs@[i as int]@);
        }
        i = i + 1;
    }
    true
}

/// Whether an envelope fits the wire format, checked at run time before
/// serialization.
pub fn protocol_is_wf(m: &Protocol) -> (r: bool)
    ensures
        r == protocol_wf(m@),
{
    match m {
        Protocol::PullRequest(b, v) => {
            let bits_ok = 1 <= b.bits.len() && (b.bits.len() as u64) <= MAX_BLOOM_WORDS && (
            b.keys.len() as u64) <= MAX_BLOOM_KEYS;
            bits_ok && value_is_wf(v)
        },
        Protocol::PullResponse(_, vs) => values_are_wf(vs),
        Protocol::PushMessage(_, vs) => values_are_wf(vs),
        Protocol::PruneMessage(_, d) => (d.prunes.len() as u64) < 0x1_0000_0000u64,
        Protocol::RequestWindowIndex(_, _) => true,
    }
}

/// Serializes an envelope for the wire.
pub fn serialize_protocol(m: &Protocol) -> (r: Vec<u8>)
    requires
        protocol_wf(m@),
    ensures
        r@ == ser_protocol(m@),
{
    proof {
        lemma_pow256_values();
    }
    let mut out: Vec<u8> = Vec::new();
    match m {
        Protocol::PullRequest(b, v) => {
            out.push(0u8);
            proof {
                assert(out@ =~= seq![0u8]);
            }
            write_bloom(&mut out, b);
            write_value(&mut out, v);
        },
        Protocol::PullResponse(p, vs) => {
            out.push(1u8);
            proof {
                assert(out@ =~= seq![1u8]);
            }
            write_pubkey(&mut out, p);
            write_values(&mut out, vs);
        },
        Protocol::PushMessage(p, vs) => {
            out.push(2u8);
            proof {
                assert(out@ =~= seq![2u8]);
            }
            write_pubkey(&mut out, p);
            write_values(&mut out, vs);
        },
        Protocol::PruneMessage(p, d) => {
            out.push(3u8);
            proof {
                assert(out@ =~= seq![3u8]);
            }
            write_pubkey(&mut out, p);
            write_prune_data(&mut out, d);
        },
        Protocol::RequestWindowIndex(c, ix) => {
            out.push(4u8);
            proof {
                assert(out@ =~= seq![4u8]);
            }
            write_contact_info(&mut out, c);
            put_le(&mut out, *ix as u128, 8);
        },
    }
    proof {
        assert(out@ =~= ser_protocol(m@));
    }
    out
}

/// Deserializes one envelope from a datagram; the whole datagram must be
/// exactly one envelope.
pub fn deserialize_protocol(bytes: &Vec<u8>) -> (r: Option<Protocol>)
    ensures
        match r {
            Some(m) => rd_protocol(bytes@, 0) == Some((m@, bytes@.len() as int)),
            None => rd_protocol(bytes@, 0) is None || (rd_protocol(bytes@, 0) matches Some((_, e))
                && e != bytes@.len()),
        },
{
    let blen = bytes.len();
    if blen == 0 {
        return None;
    }
    let tag = bytes[0];
    let parsed: Option<(Protocol, usize)> = if tag == 0 {
        match read_bloom(bytes, 1) {
            None => None,
            Some((b, p1)) => match read_value(bytes, p1) {
                None => None,
                Some((v, p2)) => Some((Protocol::PullRequest(b, v), p2)),
            },
        }
    } else if tag == 1 {
        match read_pubkey(bytes, 1) {
            None => None,
            Some((p, p1)) => match read_values(bytes, p1) {
                None => None,
                Some((vs, p2)) => Some((Protocol::PullResponse(p, vs), p2)),
            },
        }
    } else if tag == 2 {
        match read_pubkey(bytes, 1) {
            None => None,
            Some((p, p1)) => match read_values(bytes, p1) {
                None => None,
                Some((vs, p2)) => Some((Protocol::PushMessage(p, vs), p2)),
            },
        }
    } else if tag == 3 {
        match read_pubkey(bytes, 1) {
            None => None,
            Some((p, p1)) => match read_prune_data(bytes, p1) {
                None => None,
                Some((d, p2)) => Some((Protocol::PruneMessage(p, d), p2)),
            },
        }
    } else if tag == 4 {
        match read_contact_info(bytes, 1) {
            None => None,
            Some((c, p1)) => match read_le(bytes, p1, 8) {
                None => None,
                Some((ix, p2)) => {
                    proof {
                        lemma_pow256_values();
                        crate::bytes::lemma_le_val_bound(
                            bytes@.subrange(p1 as int, p1 as int + 8),
                        );
                    }
                    Some((Protocol::RequestWindowIndex(c, ix as u64), p2))
                },
            },
        }
    } else {
        None
    };
    match parsed {
        Some((m, end)) => {
            if end == blen {
                Some(m)
            } else {
                None
            }
        },
        None => None,
    }
}

} // verus!
