//! Little-endian words over byte sequences.
use vstd::arithmetic::div_mod::lemma_mod_breakdown;
use vstd::prelude::*;

verus! {

/// 256 to the power `n`.
pub open spec fn pow256(n: nat) -> nat
    decreases n,
{
    if n == 0 {
        1
    } else {
        256 * pow256((n - 1) as nat)
    }
}

/// The number that bytes hold, least significant byte first.
pub open spec fn le_word(s: Seq<u8>) -> nat
    decreases s.len(),
{
    if s.len() == 0 {
        0
    } else {
        s[0] as nat + 256 * le_word(s.skip(1))
    }
}

/// The low `n` bytes of a number, least significant byte first.
pub open spec fn le_bytes(v: nat, n: nat) -> Seq<u8>
    decreases n,
{
    if n == 0 {
        Seq::empty()
    } else {
        seq![(v % 256) as u8] + le_bytes(v / 256, (n - 1) as nat)
    }
}

/// A word of `n` bytes is below `256` to the power `n`.
pub proof fn lemma_word_bound(s: Seq<u8>)
    ensures
        le_word(s) < pow256(s.len()),
    decreases s.len(),
{
    if s.len() > 0 {
        lemma_word_bound(s.skip(1));
    }
}

/// The byte sequence of a number has the length asked for.
pub proof fn lemma_bytes_len(v: nat, n: nat)
    ensures
        le_bytes(v, n).len() == n,
    decreases n,
{
    if n > 0 {
        lemma_bytes_len(v / 256, (n - 1) as nat);
    }
}

proof fn lemma_pow256_positive(n: nat)
    ensures
        pow256(n) > 0,
    decreases n,
{
    if n > 0 {
        lemma_pow256_positive((n - 1) as nat);
    }
}

/// Reading back the low `n` bytes of a number gives the number modulo
/// `256` to the power `n`.
pub proof fn lemma_word_of_bytes(v: nat, n: nat)
    ensures
        le_word(le_bytes(v, n)) == v % pow256(n),
    decreases n,
{
    if n > 0 {
        let m = (n - 1) as nat;
        let tail = le_bytes(v / 256, m);
        let s = le_bytes(v, n);
        assert(s.skip(1) =~= tail);
        lemma_word_of_bytes(v / 256, m);
        lemma_pow256_positive(m);
        lemma_mod_breakdown(v as int, 256, pow256(m) as int);
    } else {
        assert(pow256(0) == 1);
    }
}

/// Values of small powers of 256.
pub proof fn lemma_pow256_values()
    ensures
        pow256(1) == 0x100,
        pow256(2) == 0x1_0000,
        pow256(4) == 0x1_0000_0000,
        pow256(8) == 0x1_0000_0000_0000_0000,
{
    reveal_with_fuel(pow256, 9);
}

/// Reads `width` little-endian bytes at `off`.
pub fn read_le(bytes: &[u8], off: usize, width: usize) -> (v: u64)
    requires
        width <= 8,
        off + width <= bytes@.len(),
    ensures
        v == le_word(bytes@.subrange(off as int, off + width)),
{
    let ghost s = bytes@.subrange(off as int, off + width);
    let total: usize = bytes.len();
    let mut v: u64 = 0;
    let mut k: usize = width;
    while k > 0
        invariant
            k <= width <= 8,
            off + width <= bytes@.len(),
            bytes@.len() == total,
            s == bytes@.subrange(off as int, off + width),
            v == le_word(s.skip(k as int)),
        decreases k,
    {
        k = k - 1;
        proof {
            let t = s.skip(k as int);
            assert(t.skip(1) =~= s.skip(k + 1));
            assert(t[0] == bytes@[off + k]);
            lemma_word_bound(t);
            reveal_with_fuel(pow256, 9);
        }
        v = v * 256 + bytes[off + k] as u64;
    }
    assert(s.skip(0) =~= s);
    v
}

} // verus!
