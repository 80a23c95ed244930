//! What the ALU operations are: laws that fix each of them by arithmetic on
//! integers, or bit by bit.
use vstd::prelude::*;

use crate::isa::alu::{swap16, swap32, swap64};
use crate::isa::insn::{AluOp, Endian, Width};

verus! {

/// A register value as an unsigned 64-bit number.
pub open spec fn word64(v: i64) -> int {
    if v >= 0 {
        v as int
    } else {
        v + 0x1_0000_0000_0000_0000
    }
}

/// The low half of a register value as an unsigned number.
pub open spec fn word32(v: i64) -> int {
    v as int % 0x1_0000_0000
}

/// Bit `i` of a register value.
pub open spec fn bit(v: i64, i: u64) -> bool {
    ((v as u64) >> i) & 1 == 1
}

/// Byte `k` of a register value, the least significant one first.
pub open spec fn byte(v: i64, k: u64) -> u64 {
    ((v as u64) >> ((8 * k) as u64)) & 0xff
}

/// Casts between register values and words.
pub proof fn lemma_casts(v: i64)
    ensures
        (v as u64) == word64(v),
        (v as u32) == word32(v),
        (v as u64) as i64 == v,
{
    assert((v as u64) as i64 == v && (v >= 0 ==> v as u64 == v) && (v < 0 ==> v as u64 == v
        + 0x1_0000_0000_0000_0000) && (v - (v as u32)) % 0x1_0000_0000 == 0) by (bit_vector);
    vstd::arithmetic::div_mod::lemma_mod_equivalence(v as int, (v as u32) as int, 0x1_0000_0000);
}

/// Casts of words to register values.
pub proof fn lemma_word_casts(x: u64, y: u32)
    ensures
        word64(x as i64) == x,
        ((y as u64) as i64) == y,
{
    assert((x < 0x8000_0000_0000_0000 ==> x as i64 == x) && (x >= 0x8000_0000_0000_0000 ==> x as i64 == x
        - 0x1_0000_0000_0000_0000) && (y as u64) as i64 == y) by (bit_vector);
}

/// Two 64-bit values that differ by a multiple of the word size are the same.
pub open spec fn same64(r: i64, x: int) -> bool {
    (r - x) % 0x1_0000_0000_0000_0000 == 0
}

/// A 32-bit result: it is zero-extended, and differs from `x` by a multiple
/// of the word size.
pub open spec fn same32(r: i64, x: int) -> bool {
    0 <= r < 0x1_0000_0000 && (r - x) % 0x1_0000_0000 == 0
}

proof fn lemma_same64(r: i64, x: int, y: int, k: int)
    requires
        word64(r) == y,
        y == x + k * 0x1_0000_0000_0000_0000,
    ensures
        same64(r, x),
{
    let m = 0x1_0000_0000_0000_0000int;
    let n = if r >= 0 {
        k
    } else {
        k - 1
    };
    assert(r - x == n * m) by (nonlinear_arith)
        requires
            r - x == k * m || (r - x == k * m - m && n == k - 1),
            r - x == k * m ==> n == k || n == k - 1,
            (r - x == k * m && n == k) || (r - x == k * m - m && n == k - 1),
    ;
    vstd::arithmetic::div_mod::lemma_mod_multiples_basic(n, m);
}

/// Sums, differences, products and negations are those of the integers, up
/// to multiples of the word size. A move gives its source.
pub proof fn arithmetic_wraps(a: i64, b: i64)
    ensures
        same64(AluOp::Add.result(a, b, Width::B64), a + b),
        same64(AluOp::Sub.result(a, b, Width::B64), a - b),
        same64(AluOp::Mul.result(a, b, Width::B64), a * b),
        same64(AluOp::Neg.result(a, b, Width::B64), -a),
        AluOp::Mov.result(a, b, Width::B64) == b,
        same32(AluOp::Add.result(a, b, Width::B32), a + b),
        same32(AluOp::Sub.result(a, b, Width::B32), a - b),
        same32(AluOp::Mul.result(a, b, Width::B32), a * b),
        same32(AluOp::Neg.result(a, b, Width::B32), -a),
        same32(AluOp::Mov.result(a, b, Width::B32), b as int),
{
    lemma_wraps64(a, b);
    lemma_wraps32(a, b);
}

#[verifier::spinoff_prover]
proof fn lemma_wraps64(a: i64, b: i64)
    ensures
        same64(AluOp::Add.result(a, b, Width::B64), a + b),
        same64(AluOp::Sub.result(a, b, Width::B64), a - b),
        same64(AluOp::Mul.result(a, b, Width::B64), a * b),
        same64(AluOp::Neg.result(a, b, Width::B64), -a),
        AluOp::Mov.result(a, b, Width::B64) == b,
{
    let m = 0x1_0000_0000_0000_0000int;
    let (x, y) = (a as u64, b as u64);
    lemma_casts(a);
    lemma_casts(b);
    let i = if a < 0 {
        1int
    } else {
        0
    };
    let j = if b < 0 {
        1int
    } else {
        0
    };
    let (add, sub, mul, neg) = (x.wrapping_add(y), x.wrapping_sub(y), x.wrapping_mul(y), 0u64.wrapping_sub(x));
    lemma_word_casts(add, 0);
    lemma_word_casts(sub, 0);
    lemma_word_casts(mul, 0);
    lemma_word_casts(neg, 0);
    lemma_same64(add as i64, a + b, add as int, i + j - (if x + y >= m {
        1int
    } else {
        0
    }));
    lemma_same64(sub as i64, a - b, sub as int, i - j + (if x < y {
        1int
    } else {
        0
    }));
    lemma_same64(neg as i64, -a, neg as int, (if x > 0 {
        1int
    } else {
        0
    }) - i);
    let q = (x * y) / m;
    vstd::arithmetic::div_mod::lemma_fundamental_div_mod(x * y, m);
    assert(x * y == a * b + (i * b + j * a + i * j * m) * m) by (nonlinear_arith)
        requires
            x == a + i * m,
            y == b + j * m,
    ;
    let k = i * b + j * a + i * j * m - q;
    assert(mul == a * b + k * m) by (nonlinear_arith)
        requires
            x * y == a * b + (i * b + j * a + i * j * m) * m,
            x * y == m * q + mul,
            k == i * b + j * a + i * j * m - q,
    ;
    lemma_same64(mul as i64, a * b, mul as int, k);
}

#[verifier::spinoff_prover]
proof fn lemma_wraps32(a: i64, b: i64)
    ensures
        same32(AluOp::Add.result(a, b, Width::B32), a + b),
        same32(AluOp::Sub.result(a, b, Width::B32), a - b),
        same32(AluOp::Mul.result(a, b, Width::B32), a * b),
        same32(AluOp::Neg.result(a, b, Width::B32), -a),
        same32(AluOp::Mov.result(a, b, Width::B32), b as int),
{
    let m = 0x1_0000_0000int;
    let (x, y) = (a as u32, b as u32);
    lemma_casts(a);
    lemma_casts(b);
    let (add, sub, mul, neg) = (x.wrapping_add(y), x.wrapping_sub(y), x.wrapping_mul(y), 0u32.wrapping_sub(x));
    lemma_word_casts(0, add);
    lemma_word_casts(0, sub);
    lemma_word_casts(0, mul);
    lemma_word_casts(0, neg);
    lemma_word_casts(0, y);
    let (i, j) = (a as int / m, b as int / m);
    vstd::arithmetic::div_mod::lemma_fundamental_div_mod(a as int, m);
    vstd::arithmetic::div_mod::lemma_fundamental_div_mod(b as int, m);
    vstd::arithmetic::div_mod::lemma_fundamental_div_mod(x * y, m);
    let q = (x * y) / m;
    assert(mul - a * b == -(i * y + j * x + i * j * m + q) * m) by (nonlinear_arith)
        requires
            a == m * i + x,
            b == m * j + y,
            x * y == m * q + mul,
    ;
    vstd::arithmetic::div_mod::lemma_mod_multiples_basic(-(i * y + j * x + i * j * m + q), m);
    let p = (if x + y >= m {
        1int
    } else {
        0
    }) + i + j;
    assert(add - (a + b) == (-p) * m);
    vstd::arithmetic::div_mod::lemma_mod_multiples_basic(-p, m);
    let s = (if x < y {
        1int
    } else {
        0
    }) - i + j;
    assert(sub - (a - b) == s * m);
    vstd::arithmetic::div_mod::lemma_mod_multiples_basic(s, m);
    let n = (if x > 0 {
        1int
    } else {
        0
    }) + i;
    assert(neg + a == n * m);
    vstd::arithmetic::div_mod::lemma_mod_multiples_basic(n, m);
    assert(y - b == (-j) * m);
    vstd::arithmetic::div_mod::lemma_mod_multiples_basic(-j, m);
}

/// Quotients and remainders are those of unsigned numbers, and zero where the
/// divisor is.
pub proof fn division_has_remainder(a: i64, b: i64)
    ensures
        ({
            let q = AluOp::Div.result(a, b, Width::B64);
            let r = AluOp::Mod.result(a, b, Width::B64);
            if b == 0 {
                q == 0 && r == 0
            } else {
                word64(a) == word64(q) * word64(b) + word64(r) && 0 <= word64(r) < word64(b)
            }
        }),
        ({
            let q = AluOp::Div.result(a, b, Width::B32);
            let r = AluOp::Mod.result(a, b, Width::B32);
            if word32(b) == 0 {
                q == 0 && r == 0
            } else {
                &&& word32(a) == q * word32(b) + r
                &&& 0 <= r < word32(b)
                &&& 0 <= q
            }
        }),
{
    lemma_casts(a);
    lemma_casts(b);
    let (x, y) = (a as u64, b as u64);
    let (u, v) = (a as u32, b as u32);
    lemma_word_casts(0, 0);
    if y != 0 {
        lemma_word_casts((x / y) as u64, 0);
        lemma_word_casts((x % y) as u64, 0);
        vstd::arithmetic::div_mod::lemma_fundamental_div_mod(x as int, y as int);
        assert(y * (x / y) == (x / y) * y) by (nonlinear_arith);
    }
    if v != 0 {
        lemma_word_casts(0, (u / v) as u32);
        lemma_word_casts(0, (u % v) as u32);
        vstd::arithmetic::div_mod::lemma_fundamental_div_mod(u as int, v as int);
        assert(v * (u / v) == (u / v) * v) by (nonlinear_arith);
    }
}

/// Conjunctions, disjunctions and exclusive disjunctions hold bit by bit; the
/// upper half of a 32-bit result is zero.
pub proof fn bitwise_bit_by_bit(a: i64, b: i64, i: u64)
    requires
        i < 64,
    ensures
        bit(AluOp::And.result(a, b, Width::B64), i) == (bit(a, i) && bit(b, i)),
        bit(AluOp::Or.result(a, b, Width::B64), i) == (bit(a, i) || bit(b, i)),
        bit(AluOp::Xor.result(a, b, Width::B64), i) == (bit(a, i) != bit(b, i)),
        bit(AluOp::And.result(a, b, Width::B32), i) == (i < 32 && bit(a, i) && bit(b, i)),
        bit(AluOp::Or.result(a, b, Width::B32), i) == (i < 32 && (bit(a, i) || bit(b, i))),
        bit(AluOp::Xor.result(a, b, Width::B32), i) == (i < 32 && bit(a, i) != bit(b, i)),
{
    assert(bit(((a as u64) & (b as u64)) as i64, i) == (bit(a, i) && bit(b, i)) && bit(((a as u64) | (
    b as u64)) as i64, i) == (bit(a, i) || bit(b, i)) && bit(((a as u64) ^ (b as u64)) as i64, i) == (bit(a, i) != bit(
        b,
        i,
    )) && bit((((a as u32) & (b as u32)) as u64) as i64, i) == (i < 32 && bit(a, i) && bit(b, i)) && bit(
        (((a as u32) | (b as u32)) as u64) as i64,
        i,
    ) == (i < 32 && (bit(a, i) || bit(b, i))) && bit((((a as u32) ^ (b as u32)) as u64) as i64, i) == (i < 32
        && bit(a, i) != bit(b, i))) by (bit_vector)
        requires
            i < 64,
    ;
}

/// An exclusive disjunction undoes itself.
pub proof fn xor_undoes_itself(a: i64, b: i64)
    ensures
        AluOp::Xor.result(AluOp::Xor.result(a, b, Width::B64), b, Width::B64) == a,
        AluOp::Xor.result(a, a, Width::B64) == 0,
{
    assert((((((a as u64) ^ (b as u64)) as i64) as u64) ^ (b as u64)) as i64 == a && ((a as u64) ^ (a as u64)) as i64
        == 0i64) by (bit_vector);
}

/// Shifts move bits by the amount, taken modulo the word size. A left shift
/// and a logical right shift fill with zeros, an arithmetic one with the sign.
pub proof fn shifts_move_bits(a: i64, b: i64, i: u64)
    requires
        i < 64,
    ensures
        ({
            let s = (b as u64) % 64;
            let t = (b as u64) % 32;
            &&& bit(AluOp::Lsh.result(a, b, Width::B64), i) == (i >= s && bit(a, (i - s) as u64))
            &&& bit(AluOp::Rsh.result(a, b, Width::B64), i) == (i + s < 64 && bit(a, (i + s) as u64))
            &&& bit(AluOp::Arsh.result(a, b, Width::B64), i) == bit(
                a,
                if i + s < 64 {
                    (i + s) as u64
                } else {
                    63
                },
            )
            &&& bit(AluOp::Lsh.result(a, b, Width::B32), i) == (t <= i < 32 && bit(a, (i - t) as u64))
            &&& bit(AluOp::Rsh.result(a, b, Width::B32), i) == (i + t < 32 && bit(a, (i + t) as u64))
            &&& bit(AluOp::Arsh.result(a, b, Width::B32), i) == (i < 32 && bit(
                a,
                if i + t < 32 {
                    (i + t) as u64
                } else {
                    31
                },
            ))
        }),
{
    lemma_shifts64(a, b, i);
    lemma_shifts32(a, b, i);
}

#[verifier::spinoff_prover]
proof fn lemma_shifts64(a: i64, b: i64, i: u64)
    requires
        i < 64,
    ensures
        ({
            let s = (b as u64) % 64;
            &&& bit(((a as u64) << s) as i64, i) == (i >= s && bit(a, (i - s) as u64))
            &&& bit(((a as u64) >> s) as i64, i) == (i + s < 64 && bit(a, (i + s) as u64))
            &&& bit(((((a as u64) as i64) >> s) as u64) as i64, i) == bit(
                a,
                if i + s < 64 {
                    (i + s) as u64
                } else {
                    63
                },
            )
        }),
{
    let s = (b as u64) % 64;
    assert(bit(((a as u64) << s) as i64, i) == (i >= s && bit(a, (i - s) as u64)) && bit(((a as u64) >> s) as i64, i)
        == (i + s < 64 && bit(a, (i + s) as u64)) && bit(((((a as u64) as i64) >> s) as u64) as i64, i) == bit(
        a,
        if i + s < 64 {
            (i + s) as u64
        } else {
            63
        },
    )) by (bit_vector)
        requires
            i < 64,
            s < 64,
    ;
}

#[verifier::spinoff_prover]
proof fn lemma_shifts32(a: i64, b: i64, i: u64)
    requires
        i < 64,
    ensures
        ({
            let t = (b as u64) % 32;
            let s = (b as u32) % 32;
            &&& bit((((a as u32) << s) as u64) as i64, i) == (t <= i < 32 && bit(a, (i - t) as u64))
            &&& bit((((a as u32) >> s) as u64) as i64, i) == (i + t < 32 && bit(a, (i + t) as u64))
            &&& bit((((((a as u32) as i32) >> s) as u32) as u64) as i64, i) == (i < 32 && bit(
                a,
                if i + t < 32 {
                    (i + t) as u64
                } else {
                    31
                },
            ))
        }),
{
    let t = (b as u64) % 32;
    let s = (b as u32) % 32;
    assert((b as u64) % 32 == ((b as u32) % 32) as u64) by (bit_vector);
    assert(bit((((a as u32) << s) as u64) as i64, i) == (t <= i && i < 32 && bit(a, (i - t) as u64)) && bit(
        (((a as u32) >> s) as u64) as i64,
        i,
    ) == (i + t < 32 && bit(a, (i + t) as u64)) && bit((((((a as u32) as i32) >> s) as u32) as u64) as i64, i) == (i
        < 32 && bit(
        a,
        if i + t < 32 {
            (i + t) as u64
        } else {
            31
        },
    ))) by (bit_vector)
        requires
            i < 64,
            s < 32,
            t == s as u64,
    ;
}

/// A byte swap keeps the low bytes of its width and clears the others. Big
/// endian output turns their order round, whatever the width of the
/// instruction.
pub proof fn byte_swaps_order_bytes(a: i64, bits: i64, width: Width, k: u64)
    requires
        bits == 16 || bits == 32 || bits == 64,
        k < 8,
    ensures
        byte(AluOp::End(Endian::Le).result(a, bits, width), k) == (if 8 * k < bits {
            byte(a, k)
        } else {
            0
        }),
        byte(AluOp::End(Endian::Be).result(a, bits, width), k) == (if 8 * k < bits {
            byte(a, (bits / 8 - 1 - k) as u64)
        } else {
            0
        }),
{
    lemma_swapped_bytes(a, k);
}

#[verifier::spinoff_prover]
proof fn lemma_swapped_bytes(a: i64, k: u64)
    requires
        k < 8,
    ensures
        byte(((a as u64) & 0xffff) as i64, k) == (if k < 2 {
            byte(a, k)
        } else {
            0
        }),
        byte(((a as u64) & 0xffff_ffff) as i64, k) == (if k < 4 {
            byte(a, k)
        } else {
            0
        }),
        byte((a as u64) as i64, k) == byte(a, k),
        byte(swap16(a as u64) as i64, k) == (if k < 2 {
            byte(a, (1 - k) as u64)
        } else {
            0
        }),
        byte(swap32(a as u64) as i64, k) == (if k < 4 {
            byte(a, (3 - k) as u64)
        } else {
            0
        }),
        byte(swap64(a as u64) as i64, k) == byte(a, (7 - k) as u64),
{
    assert(byte(((a as u64) & 0xffff) as i64, k) == (if k < 2 {
        byte(a, k)
    } else {
        0
    }) && byte(((a as u64) & 0xffff_ffff) as i64, k) == (if k < 4 {
        byte(a, k)
    } else {
        0
    }) && byte((a as u64) as i64, k) == byte(a, k)) by (bit_vector)
        requires
            k < 8,
    ;
    assert(byte(swap16(a as u64) as i64, k) == (if k < 2 {
        byte(a, (1 - k) as u64)
    } else {
        0
    }) && byte(swap32(a as u64) as i64, k) == (if k < 4 {
        byte(a, (3 - k) as u64)
    } else {
        0
    }) && byte(swap64(a as u64) as i64, k) == byte(a, (7 - k) as u64)) by (bit_vector)
        requires
            k < 8,
    ;
}

/// A move does not read its left operand, and a negation not its right one.
pub proof fn lemma_reads(a: i64, b: i64, width: Width)
    ensures
        AluOp::Mov.result(a, b, width) == AluOp::Mov.result(0, b, width),
        AluOp::Neg.result(a, b, width) == AluOp::Neg.result(a, 0, width),
{
}

} // verus!
