//! Little-endian byte encoding of unsigned integers, the base layer of the
//! wire codec: spec-level definitions, executable encoders and decoders, and
//! the round-trip lemmas that the message codec builds on.

use vstd::prelude::*;
use vstd::arithmetic::div_mod::{lemma_div_basics, lemma_div_denominator, lemma_fundamental_div_mod};

verus! {

/// 256 to the power `n`: the number of values a little-endian string of `n`
/// bytes can hold.
pub open spec fn pow256(n: nat) -> nat
    decreases n,
{
    if n == 0 {
        1
    } else {
        256 * pow256((n - 1) as nat)
    }
}

/// The `n`-byte little-endian encoding of `x` (low byte first; `x` is reduced
/// modulo `pow256(n)`).
pub open spec fn le_bytes(x: nat, n: nat) -> Seq<u8>
    decreases n,
{
    if n == 0 {
        Seq::empty()
    } else {
        seq![(x % 256) as u8] + le_bytes(x / 256, (n - 1) as nat)
    }
}

/// The value of a little-endian byte string.
pub open spec fn le_val(s: Seq<u8>) -> nat
    decreases s.len(),
{
    if s.len() == 0 {
        0
    } else {
        (s[0] + 256 * le_val(s.drop_first())) as nat
    }
}

pub proof fn lemma_pow256_pos(n: nat)
    ensures
        pow256(n) >= 1,
    decreases n,
{
    if n > 0 {
        lemma_pow256_pos((n - 1) as nat);
    }
}

pub proof fn lemma_le_bytes_len(x: nat, n: nat)
    ensures
        le_bytes(x, n).len() == n,
    decreases n,
{
    if n > 0 {
        lemma_le_bytes_len(x / 256, (n - 1) as nat);
    }
}

/// Encoding then decoding gives the value back, for values that fit.
pub proof fn lemma_le_round_trip(x: nat, n: nat)
    requires
        x < pow256(n),
    ensures
        le_val(le_bytes(x, n)) == x,
    decreases n,
{
    if n == 0 {
    } else {
        lemma_fundamental_div_mod(x as int, 256);
        assert(x / 256 < pow256((n - 1) as nat)) by {
            lemma_pow256_pos((n - 1) as nat);
            if x / 256 >= pow256((n - 1) as nat) {
                assert(x >= 256 * (x / 256)) by {
                    lemma_fundamental_div_mod(x as int, 256);
                };
                assert(256 * (x / 256) >= 256 * pow256((n - 1) as nat))
                    by (nonlinear_arith)
                    requires
                        x / 256 >= pow256((n - 1) as nat),
                ;
                assert(false);
            }
        };
        lemma_le_round_trip(x / 256, (n - 1) as nat);
        lemma_le_bytes_len(x / 256, (n - 1) as nat);
        let s = le_bytes(x, n);
        assert(s.drop_first() =~= le_bytes(x / 256, (n - 1) as nat));
        assert(le_val(s) == x % 256 + 256 * (x / 256));
    }
}

/// The concrete powers the codec uses.
pub proof fn lemma_pow256_values()
    ensures
        pow256(1) == 0x100,
        pow256(2) == 0x1_0000,
        pow256(4) == 0x1_0000_0000,
        pow256(8) == 0x1_0000_0000_0000_0000,
        pow256(16) == 0x1_0000_0000_0000_0000_0000_0000_0000_0000,
{
    reveal_with_fuel(pow256, 17);
}

/// A little-endian byte string of length `n` encodes a value below `pow256(n)`.
pub proof fn lemma_le_val_bound(s: Seq<u8>)
    ensures
        le_val(s) < pow256(s.len()),
    decreases s.len(),
{
    if s.len() == 0 {
    } else {
        lemma_le_val_bound(s.drop_first());
        assert(le_val(s) == s[0] + 256 * le_val(s.drop_first()));
        assert(256 * le_val(s.drop_first()) <= 256 * (pow256((s.len() - 1) as nat) - 1))
            by (nonlinear_arith)
            requires
                le_val(s.drop_first()) <= pow256((s.len() - 1) as nat) - 1,
        ;
    }
}

/// Appending one more byte to an encoding encodes the next division step.
pub proof fn lemma_le_bytes_snoc(x: nat, n: nat)
    ensures
        le_bytes(x, n + 1) =~= le_bytes(x, n) + seq![(x / pow256(n) % 256) as u8],
    decreases n,
{
    if n == 0 {
        lemma_div_basics(x as int);
        assert(x / pow256(0) == x);
        assert(le_bytes(x / 256, 0) =~= Seq::<u8>::empty());
        assert(le_bytes(x, 1) =~= seq![(x % 256) as u8]);
        assert(le_bytes(x, 0) + seq![(x / pow256(0) % 256) as u8] =~= seq![(x % 256) as u8]);
        assert(le_bytes(x, 1) =~= le_bytes(x, 0) + seq![(x / pow256(0) % 256) as u8]);
    } else {
        lemma_le_bytes_snoc(x / 256, (n - 1) as nat);
        lemma_pow256_pos((n - 1) as nat);
        lemma_div_denominator(x as int, 256, pow256((n - 1) as nat) as int);
        assert(x / 256 / pow256((n - 1) as nat) == x / pow256(n)) by {
            assert(256 * pow256((n - 1) as nat) == pow256(n));
        };
        assert(le_bytes(x, n + 1) =~= seq![(x % 256) as u8] + le_bytes(x / 256, n));
        assert(le_bytes(x / 256, n) =~= le_bytes(x / 256, (n - 1) as nat) + seq![(x / pow256(n)
            % 256) as u8]);
        assert(le_bytes(x, n) =~= seq![(x % 256) as u8] + le_bytes(x / 256, (n - 1) as nat));
        assert(le_bytes(x, n + 1) =~= le_bytes(x, n) + seq![(x / pow256(n) % 256) as u8]);
    }
}

/// Appends the `n`-byte little-endian encoding of `x` to `out`.
pub fn put_le(out: &mut Vec<u8>, x: u128, n: usize)
    requires
        n <= 16,
        (x as nat) < pow256(n as nat),
    ensures
        final(out)@ == old(out)@ + le_bytes(x as nat, n as nat),
{
    let mut v: u128 = x;
    let mut i: usize = 0;
    proof {
        assert(out@ =~= old(out)@ + le_bytes(x as nat, 0));
        lemma_div_basics(x as int);
        assert(pow256(0) == 1);
    }
    while i < n
        invariant
            i <= n,
            n <= 16,
            out@ == old(out)@ + le_bytes(x as nat, i as nat),
            v as nat == (x as nat) / pow256(i as nat),
        decreases n - i,
    {
        let b: u8 = (v % 256) as u8;
        out.push(b);
        proof {
            lemma_le_bytes_len(x as nat, i as nat);
            lemma_le_bytes_snoc(x as nat, i as nat);
            assert(out@ =~= old(out)@ + le_bytes(x as nat, (i + 1) as nat));
            lemma_pow256_pos(i as nat);
            lemma_div_denominator(x as int, pow256(i as nat) as int, 256);
            assert(pow256(i as nat) * 256 == pow256((i + 1) as nat)) by {
                assert(pow256((i + 1) as nat) == 256 * pow256(i as nat));
            };
        }
        v = v / 256;
        i = i + 1;
    }
    proof {
        assert(out@ =~= old(out)@ + le_bytes(x as nat, n as nat));
    }
}

/// Reads the value of the `n` little-endian bytes at `pos`.
pub fn get_le(bytes: &Vec<u8>, pos: usize, n: usize) -> (r: u128)
    requires
        n <= 16,
        pos + n <= bytes@.len(),
    ensures
        r as nat == le_val(bytes@.subrange(pos as int, pos as int + n as int)),
{
    let ghost s = bytes@.subrange(pos as int, pos as int + n as int);
    let blen: usize = bytes.len();
    let mut r: u128 = 0;
    let mut j: usize = n;
    proof {
        assert(s.subrange(n as int, n as int) =~= Seq::<u8>::empty());
    }
    while j > 0
        invariant
            j <= n,
            n <= 16,
            pos + n <= blen,
            blen == bytes@.len(),
            s == bytes@.subrange(pos as int, pos as int + n as int),
            r as nat == le_val(s.subrange(j as int, n as int)),
            (r as nat) < pow256((n - j) as nat),
        decreases j,
    {
        let b: u8 = bytes[pos + j - 1];
        proof {
            let tail = s.subrange(j as int, n as int);
            let whole = s.subrange(j as int - 1, n as int);
            assert(whole[0] == s[j as int - 1]);
            assert(whole.drop_first() =~= tail);
            assert(s[j as int - 1] == bytes@[pos + j - 1]);
            assert(le_val(whole) == whole[0] + 256 * le_val(tail));
            assert(256 * le_val(tail) <= 256 * (pow256((n - j) as nat) - 1))
                by (nonlinear_arith)
                requires
                    le_val(tail) <= pow256((n - j) as nat) - 1,
            ;
            assert(pow256((n - j + 1) as nat) == 256 * pow256((n - j) as nat));
            assert(pow256((n - j + 1) as nat) <= pow256(16)) by {
                lemma_pow256_mono((n - j + 1) as nat, 16);
            };
            assert(pow256(16) == 0x1_0000_0000_0000_0000_0000_0000_0000_0000) by {
                reveal_with_fuel(pow256, 17);
            };
        }
        r = (b as u128) + 256 * r;
        j = j - 1;
    }
    proof {
        assert(s.subrange(0, n as int) =~= s);
    }
    r
}

pub proof fn lemma_pow256_mono(a: nat, b: nat)
    requires
        a <= b,
    ensures
        pow256(a) <= pow256(b),
    decreases b,
{
    if a < b {
        lemma_pow256_mono(a, (b - 1) as nat);
        lemma_pow256_pos((b - 1) as nat);
    }
}

} // verus!
