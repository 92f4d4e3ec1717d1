//! Self-contained bit-level integer routines: addition and multiplication
//! built from bitwise operations only, and the binary reflected Gray code.

use vstd::prelude::*;
use vstd::arithmetic::div_mod::{lemma_add_mod_noop, lemma_breakdown, lemma_small_mod};
use vstd::arithmetic::mul::lemma_mul_is_distributive_add;
use vstd::arithmetic::power2::{
    lemma2_to64, lemma_pow2_adds, lemma_pow2_pos, lemma_pow2_strictly_increases, pow2,
};
use vstd::bits::{lemma_u32_shl_is_mul, lemma_u32_shr_is_div, lemma_u64_shl_is_mul};
use vstd::std_specs::bits::{axiom_u32_trailing_zeros, u32_trailing_zeros};

verus! {

/// If the low `k` bits of `x` are all zero, `x` has at least `k` trailing
/// zeros.
proof fn lemma_tz_at_least(x: u32, k: u32)
    requires
        k <= 32,
        forall|j: u32| j < k ==> #[trigger] (x >> j) & 1u32 == 0u32,
    ensures
        u32_trailing_zeros(x) >= k,
{
    axiom_u32_trailing_zeros(x);
    if u32_trailing_zeros(x) < k {
        let t = u32_trailing_zeros(x);
        assert((x >> t) & 1u32 == 1u32);
        assert((x >> t) & 1u32 == 0u32);
    }
}

/// Each carry-propagation step shifts the carry left, so the first operand of
/// the recursive call gains at least one trailing zero.
proof fn lemma_adder_carry_decreases(a: u32, b: u32)
    requires
        a & b != 0,
    ensures
        u32_trailing_zeros((a & b) << 1u32) > u32_trailing_zeros(a),
        u32_trailing_zeros((a & b) << 1u32) <= 32,
{
    let c = (a & b) << 1u32;
    let ta = u32_trailing_zeros(a);
    axiom_u32_trailing_zeros(a);
    axiom_u32_trailing_zeros(c);
    assert(a != 0) by (bit_vector)
        requires
            a & b != 0,
    ;
    assert forall|j: u32| j < ta + 1 implies #[trigger] (c >> j) & 1u32 == 0u32 by {
        if j == 0 {
            assert((((a & b) << 1u32) >> 0u32) & 1u32 == 0u32) by (bit_vector);
        } else {
            let jm1 = (j - 1) as u32;
            assert((a >> jm1) & 1u32 == 0u32);
            assert((((a & b) << 1u32) >> j) & 1u32 == 0u32) by (bit_vector)
                requires
                    1 <= j <= 31,
                    jm1 == j - 1,
                    (a >> jm1) & 1u32 == 0u32,
            ;
        }
    }
    lemma_tz_at_least(c, (ta + 1) as u32);
}

/// Addition from bitwise operations alone: the exclusive or is the digit-wise
/// sum, the shifted conjunction is the carry, and the carry is folded in
/// recursively. The result is the sum modulo 2^32, as wrapping addition is.
pub fn adder(a: u32, b: u32) -> (r: u32)
    ensures
        r == (a + b) % 0x1_0000_0000,
    decreases 32 - u32_trailing_zeros(a),
{
    let mut carry: u32 = a & b;
    let sum: u32 = a ^ b;

    if carry != 0 {
        proof {
            lemma_adder_carry_decreases(a, b);
            assert((((a & b) << 1u32) + (a ^ b)) % 0x1_0000_0000 == (a + b) % 0x1_0000_0000)
                by (bit_vector);
        }
        carry = carry << 1;
        return adder(carry, sum);
    }
    proof {
        assert((a ^ b) == (a + b) % 0x1_0000_0000) by (bit_vector)
            requires
                a & b == 0,
        ;
    }
    sum
}

/// Multiplication by shift-and-add over the bits of `b`, using `adder` for
/// every addition. The result is the product modulo 2^32, as wrapping
/// multiplication is.
pub fn multiplier(a: u32, b: u32) -> (r: u32)
    ensures
        r == (a * b) % 0x1_0000_0000,
{
    let mut res: u32 = 0;
    let mut mask: u32 = 1;
    let mut shift: u32 = 0;

    proof {
        lemma2_to64();
        assert(1u32 == (1u32 << 0u32)) by (bit_vector);
        assert(pow2(0) == 1);
        assert((b as int) % 1int == 0int);
        assert(((a as int) * 0int) % 0x1_0000_0000 == 0int);
    }
    while mask != 0
        invariant
            shift <= 32,
            mask == (if shift < 32 {
                1u32 << shift
            } else {
                0u32
            }),
            res == ((a as int) * ((b as int) % (pow2(shift as nat) as int))) % 0x1_0000_0000,
        decreases 32 - shift,
    {
        let ghost s = shift;
        let ghost low = (b as int) % (pow2(s as nat) as int);
        proof {
            assert(s < 32);
            lemma2_to64();
            lemma_pow2_pos(s as nat);
            lemma_pow2_strictly_increases(s as nat, 32);
            lemma_u32_shl_is_mul(1u32, s);
            // the bit the mask selects is the low bit of the shifted value
            assert((b & (1u32 << s)) != 0 <==> ((b >> s) & 1u32) == 1u32) by (bit_vector)
                requires
                    s < 32,
            ;
            assert(((b >> s) & 1u32) == (b >> s) % 2) by (bit_vector);
            lemma_u32_shr_is_div(b, s);
            // peeling the next binary digit off the low part of b
            lemma_breakdown(b as int, pow2(s as nat) as int, 2);
            lemma_pow2_adds(s as nat, 1);
            assert(pow2((s + 1) as nat) == pow2(s as nat) * 2);
            assert((b as int) % ((pow2(s as nat) as int) * 2) == (pow2(s as nat) as int) * (((
            b as int) / (pow2(s as nat) as int)) % 2) + (b as int) % (pow2(s as nat) as int));
            assert((b as int) / (pow2(s as nat) as int) == (b >> s) as int);
        }
        if (b & mask) != 0 {
            proof {
                assert((a as u64) * (pow2(s as nat) as u64) <= u64::MAX) by (nonlinear_arith)
                    requires
                        a <= 0xFFFF_FFFFu64 && (pow2(s as nat) as u64) <= 0xFFFF_FFFFu64,
                ;
                lemma_u64_shl_is_mul(a as u64, s as u64);
                assert(((a << s) as u64) == ((a as u64) << (s as u64)) % 0x1_0000_0000u64)
                    by (bit_vector)
                    requires
                        s < 32,
                ;
                lemma_mul_is_distributive_add(a as int, low, pow2(s as nat) as int);
                lemma_add_mod_noop(
                    (a as int) * low,
                    (a as int) * (pow2(s as nat) as int),
                    0x1_0000_0000,
                );
            }
            res = adder(res, a << shift);
            proof {
                let p = pow2(s as nat) as int;
                assert((b >> s) % 2 == 1);
                assert(((b as int) / p) % 2 == 1);
                assert((b as int) % (p * 2) == low + p);
                assert((pow2((s + 1) as nat) as int) == p * 2);
                assert((a << s) as int == ((a as int) * p) % 0x1_0000_0000);
                assert(res as int == (((a as int) * low) % 0x1_0000_0000 + ((a as int) * p)
                    % 0x1_0000_0000) % 0x1_0000_0000);
                assert(res as int == ((a as int) * low + (a as int) * p) % 0x1_0000_0000);
                assert((b as int) % (pow2((s + 1) as nat) as int) == low + p);
                assert(res as int == ((a as int) * ((b as int) % (pow2((s + 1) as nat) as int)))
                    % 0x1_0000_0000);
            }
        } else {
            proof {
                let p = pow2(s as nat) as int;
                assert((b >> s) % 2 == 0);
                assert(((b as int) / p) % 2 == 0);
                assert(p * (((b as int) / p) % 2) == 0int) by (nonlinear_arith)
                    requires
                        ((b as int) / p) % 2 == 0,
                ;
                assert((b as int) % (p * 2) == low);
                assert((pow2((s + 1) as nat) as int) == p * 2);
                assert((b as int) % (pow2((s + 1) as nat) as int) == low);
            }
        }
        mask = mask << 1;
        shift = shift + 1;
        proof {
            assert((1u32 << s) << 1u32 == (if s + 1 < 32 {
                1u32 << ((s + 1) as u32)
            } else {
                0u32
            })) by (bit_vector)
                requires
                    s < 32,
            ;
        }
    }
    proof {
        assert(shift < 32 ==> 1u32 << shift != 0) by (bit_vector);
        assert(shift == 32);
        lemma2_to64();
        lemma_small_mod(b as nat, pow2(32));
    }
    res
}

/// The binary reflected Gray code of `n`: each value differs from its
/// successor's code in exactly one bit.
pub fn gray_code(n: u32) -> (r: u32)
    ensures
        r == n ^ (n >> 1u32),
{
    n ^ (n >> 1)
}

} // verus!
