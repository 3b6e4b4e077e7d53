//! A fixed-size bloom filter over value hashes, used to summarize "the value
//! hashes I already hold" on pull requests. Membership uses one FNV-1a hash
//! per key seed; adding an item never produces a false negative.

use vstd::prelude::*;
use vstd::arithmetic::div_mod::{lemma_fundamental_div_mod, lemma_mod_bound};
use crate::bytes::{lemma_pow256_values, put_le};
use crate::keys::HashVal;
use crate::rng::rand_u64;

verus! {

/// Upper bound on the bit-array length in 64-bit words (32768 bits), keeping
/// a serialized filter well under the datagram budget.
pub const MAX_BLOOM_WORDS: u64 = 512;

/// Upper bound on the number of hash-key seeds.
pub const MAX_BLOOM_KEYS: u64 = 16;

/// The FNV-1a 64-bit offset basis.
pub const FNV_BASIS: u64 = 0xcbf2_9ce4_8422_2325;

/// The FNV-1a 64-bit prime.
pub const FNV_PRIME: u64 = 0x100_0000_01b3;

/// A bloom filter: key seeds and a bit array packed into 64-bit words.
#[derive(Debug)]
pub struct Bloom {
    /// Seeds, one per hash function.
    pub keys: Vec<u64>,
    /// The bit array, 64 bits per word.
    pub bits: Vec<u64>,
}

/// Ghost image of a `Bloom`.
pub struct BloomV {
    pub keys: Seq<u64>,
    pub bits: Seq<u64>,
}

impl View for Bloom {
    type V = BloomV;

    open spec fn view(&self) -> BloomV {
        BloomV { keys: self.keys@, bits: self.bits@ }
    }
}

/// A usable filter: a nonempty, bounded bit array and a bounded key list.
pub open spec fn bloom_wf(b: BloomV) -> bool {
    &&& 1 <= b.bits.len() <= MAX_BLOOM_WORDS
    &&& b.keys.len() <= MAX_BLOOM_KEYS
}

/// One FNV-1a step: fold a byte into the state.
pub open spec fn fnv1a_step(h: u64, b: u8) -> u64 {
    ((((h ^ b as u64) as nat) * (FNV_PRIME as nat)) % 0x1_0000_0000_0000_0000) as u64
}

/// FNV-1a over a byte string, seeded by xoring the seed into the offset
/// basis.
pub open spec fn fnv1a(seed: u64, s: Seq<u8>) -> u64
    decreases s.len(),
{
    if s.len() == 0 {
        seed ^ FNV_BASIS
    } else {
        fnv1a_step(fnv1a(seed, s.drop_last()), s.last())
    }
}

/// Whether bit `p` of the packed array is set.
pub open spec fn bit_set(bits: Seq<u64>, p: nat) -> bool {
    &&& p < bits.len() * 64
    &&& (bits[(p / 64) as int] >> ((p % 64) as u64)) & 1u64 == 1u64
}

/// The bit position an item maps to under one key.
pub open spec fn bloom_pos(b: BloomV, key: u64, item: HashVal) -> nat {
    (fnv1a(key, item.bytes()) as nat) % (b.bits.len() * 64)
}

/// Filter membership: every key's bit for the item is set.
pub open spec fn bloom_has(b: BloomV, item: HashVal) -> bool {
    forall|i: int| 0 <= i < b.keys.len() ==> bit_set(b.bits, bloom_pos(b, #[trigger] b.keys[i], item))
}

impl HashVal {
    /// The 32 bytes of this hash, as the filter hashes them.
    pub fn to_bytes_vec(&self) -> (r: Vec<u8>)
        ensures
            r@ == self.bytes(),
    {
        proof {
            lemma_pow256_values();
        }
        let mut out: Vec<u8> = Vec::new();
        put_le(&mut out, self.a, 16);
        put_le(&mut out, self.b, 16);
        out
    }
}

/// FNV-1a of a byte string under a seed.
fn fnv1a_exec(seed: u64, s: &Vec<u8>) -> (r: u64)
    ensures
        r == fnv1a(seed, s@),
{
    let mut h: u64 = seed ^ FNV_BASIS;
    let mut i: usize = 0;
    proof {
        assert(s@.subrange(0, 0) =~= Seq::<u8>::empty());
    }
    while i < s.len()
        invariant
            i <= s@.len(),
            h == fnv1a(seed, s@.subrange(0, i as int)),
        decreases s@.len() - i,
    {
        let b = s[i];
        let prod: u128 = (h ^ b as u64) as u128 * FNV_PRIME as u128;
        h = (prod % 0x1_0000_0000_0000_0000u128) as u64;
        proof {
            let pre = s@.subrange(0, i as int);
            let cur = s@.subrange(0, i + 1);
            assert(cur.drop_last() =~= pre);
            assert(cur.last() == s@[i as int]);
        }
        i = i + 1;
    }
    proof {
        assert(s@.subrange(0, s@.len() as int) =~= s@);
    }
    h
}

impl Bloom {
    /// A filter from explicit seeds and a word count; all bits clear.
    pub fn new(keys: Vec<u64>, num_words: u64) -> (r: Bloom)
        requires
            1 <= num_words <= MAX_BLOOM_WORDS,
            keys@.len() <= MAX_BLOOM_KEYS,
        ensures
            bloom_wf(r@),
            r@.keys == keys@,
            r@.bits.len() == num_words,
            forall|w: int| 0 <= w < r@.bits.len() ==> r@.bits[w] == 0,
    {
        let mut bits: Vec<u64> = Vec::new();
        let mut w: u64 = 0;
        while w < num_words
            invariant
                w <= num_words,
                bits@.len() == w,
                forall|k: int| 0 <= k < bits@.len() ==> bits@[k] == 0,
            decreases num_words - w,
        {
            bits.push(0);
            w = w + 1;
        }
        Bloom { keys, bits }
    }

    /// A filter sized for `num_items` entries with three random key seeds:
    /// about five bits per item, within the word-count bounds.
    pub fn random(num_items: u64) -> (r: Bloom)
        ensures
            bloom_wf(r@),
            r@.keys.len() == 3,
            forall|w: int| 0 <= w < r@.bits.len() ==> r@.bits[w] == 0,
            forall|item: HashVal| !bloom_has(r@, item),
    {
        let mut keys: Vec<u64> = Vec::new();
        keys.push(rand_u64());
        keys.push(rand_u64());
        keys.push(rand_u64());
        let wanted = if num_items > 6000 {
            6000
        } else {
            num_items
        };
        let mut num_words = wanted * 5 / 64 + 1;
        if num_words > MAX_BLOOM_WORDS {
            num_words = MAX_BLOOM_WORDS;
        }
        let r = Bloom::new(keys, num_words);
        proof {
            assert forall|item: HashVal| !bloom_has(r@, item) by {
                let m = r@.bits.len() * 64;
                let p = bloom_pos(r@, r@.keys[0], item);
                lemma_mod_bound(fnv1a(r@.keys[0], item.bytes()) as int, m as int);
                assert(p < m);
                assert(p as int / 64 * 64 <= p) by {
                    lemma_fundamental_div_mod(p as int, 64);
                };
                let pw = p as int / 64;
                let blen = r@.bits.len() as int;
                assert(pw < blen) by (nonlinear_arith)
                    requires
                        p < blen * 64,
                        pw * 64 <= p,
                        p >= 0,
                ;
                let word = r@.bits[(p / 64) as int];
                assert(word == 0);
                let sh = (p % 64) as u64;
                assert((0u64 >> sh) & 1u64 == 0u64) by (bit_vector);
                assert(!bit_set(r@.bits, p));
            };
        }
        r
    }

    /// Marks an item present. Never clears a bit, so anything contained
    /// before is still contained, and the item itself is contained after.
    pub fn add(&mut self, item: &HashVal)
        requires
            bloom_wf(old(self)@),
        ensures
            bloom_wf(final(self)@),
            final(self)@.keys == old(self)@.keys,
            final(self)@.bits.len() == old(self)@.bits.len(),
            bloom_has(final(self)@, *item),
            forall|p: nat| bit_set(old(self)@.bits, p) ==> bit_set(final(self)@.bits, p),
    {
        let ghost orig = self@;
        let item_bytes = item.to_bytes_vec();
        let nbits: u64 = (self.bits.len() as u64) * 64;
        let mut i: usize = 0;
        while i < self.keys.len()
            invariant
                bloom_wf(self@),
                self@.keys == orig.keys,
                self@.bits.len() == orig.bits.len(),
                nbits == orig.bits.len() * 64,
                item_bytes@ == item.bytes(),
                i <= self@.keys.len(),
                forall|p: nat| bit_set(orig.bits, p) ==> bit_set(self@.bits, p),
                forall|k: int|
                    0 <= k < i ==> bit_set(self@.bits, bloom_pos(self@, #[trigger] self@.keys[k],
                    *item)),
            decreases self@.keys.len() - i,
        {
            let ghost pre = self@;
            let key = self.keys[i];
            let h = fnv1a_exec(key, &item_bytes);
            let p: u64 = h % nbits;
            let w: usize = (p / 64) as usize;
            let shift: u64 = p % 64;
            let word = self.bits[w];
            let updated = word | (1u64 << shift);
            self.bits.set(w, updated);
            proof {
                assert((updated >> shift) & 1u64 == 1u64) by (bit_vector)
                    requires
                        updated == word | (1u64 << shift),
                        shift < 64,
                ;
                assert forall|p2: nat| bit_set(pre.bits, p2) implies bit_set(self@.bits, p2) by {
                    let w2 = (p2 / 64) as int;
                    let s2 = (p2 % 64) as u64;
                    if w2 == w {
                        assert((updated >> s2) & 1u64 == 1u64) by (bit_vector)
                            requires
                                updated == word | (1u64 << shift),
                                (word >> s2) & 1u64 == 1u64,
                        ;
                    }
                };
                assert(bit_set(self@.bits, bloom_pos(self@, key, *item)));
                assert forall|k: int|
                    0 <= k < i + 1 implies bit_set(self@.bits, bloom_pos(self@,
                #[trigger] self@.keys[k], *item)) by {
                    if k < i {
                        assert(bit_set(pre.bits, bloom_pos(pre, self@.keys[k], *item)));
                    }
                };
            }
            i = i + 1;
        }
    }

    /// Tests whether an item may be present: true iff every key's bit is set.
    pub fn contains(&self, item: &HashVal) -> (r: bool)
        requires
            bloom_wf(self@),
        ensures
            r == bloom_has(self@, *item),
    {
        let item_bytes = item.to_bytes_vec();
        let nbits: u64 = (self.bits.len() as u64) * 64;
        let mut i: usize = 0;
        while i < self.keys.len()
            invariant
                bloom_wf(self@),
                nbits == self@.bits.len() * 64,
                item_bytes@ == item.bytes(),
                i <= self@.keys.len(),
                forall|k: int|
                    0 <= k < i ==> bit_set(self@.bits, bloom_pos(self@, #[trigger] self@.keys[k],
                    *item)),
            decreases self@.keys.len() - i,
        {
            let key = self.keys[i];
            let h = fnv1a_exec(key, &item_bytes);
            let p: u64 = h % nbits;
            let w: usize = (p / 64) as usize;
            let shift: u64 = p % 64;
            let word = self.bits[w];
            if (word >> shift) & 1 != 1 {
                proof {
                    assert(!bit_set(self@.bits, bloom_pos(self@, key, *item)));
                }
                return false;
            }
            i = i + 1;
        }
        true
    }
}

} // verus!
