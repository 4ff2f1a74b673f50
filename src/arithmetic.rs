//! The arithmetic operators. Each pops its operands, the first listed from the
//! top, and pushes one result; `exp` alone can fail, and then pushes nothing.
use crate::stack::{at_depth, Stack};
use crate::state::{ExecutionState, Revision, StatusCode};
use vstd::arithmetic::div_mod::*;
use vstd::arithmetic::power::*;
use vstd::arithmetic::power2::*;
use crate::word::{
    modulus, to_signed, trunc_div, trunc_rem, unsigned_div, unsigned_rem, wide_add, wide_mul,
    wide_rem, wrap, leading_zeros, lemma_pow2_halves, split_low, wrapping_add, wrapping_mul, wrapping_sub, signed_div, signed_rem, Word,
};
use vstd::prelude::*;

verus! {

/// `new` is `old` with its top `n` words replaced by one word of value `v`.
pub open spec fn replaces_top(old: Seq<Word>, new: Seq<Word>, n: int, v: nat) -> bool {
    &&& new.len() == old.len() - n + 1
    &&& new.drop_last() == old.subrange(0, old.len() - n)
    &&& new.last().value() == v
}

/// The value of the operand popped `i`-th (0 is the first) from a stack view.
pub open spec fn operand(s: Seq<Word>, i: int) -> nat {
    at_depth(s, i).value()
}

pub open spec fn add_spec(a: nat, b: nat) -> nat {
    wrap((a + b) as int)
}

pub open spec fn mul_spec(a: nat, b: nat) -> nat {
    wrap((a * b) as int)
}

pub open spec fn sub_spec(a: nat, b: nat) -> nat {
    wrap(a - b)
}

pub open spec fn div_spec(a: nat, b: nat) -> nat {
    if b == 0 {
        0
    } else {
        a / b
    }
}

pub open spec fn mod_spec(a: nat, b: nat) -> nat {
    if b == 0 {
        0
    } else {
        a % b
    }
}

pub open spec fn sdiv_spec(a: nat, b: nat) -> nat {
    if b == 0 {
        0
    } else {
        wrap(trunc_div(to_signed(a), to_signed(b)))
    }
}

pub open spec fn smod_spec(a: nat, b: nat) -> nat {
    if b == 0 {
        0
    } else {
        wrap(trunc_rem(to_signed(a), to_signed(b)))
    }
}

/// `(a + b) mod c` on the exact sum; 0 when `c` is 0.
pub open spec fn addmod_spec(a: nat, b: nat, c: nat) -> nat {
    if c == 0 {
        0
    } else {
        (a + b) % c
    }
}

/// `(a * b) mod c` on the exact product; 0 when `c` is 0.
pub open spec fn mulmod_spec(a: nat, b: nat, c: nat) -> nat {
    if c == 0 {
        0
    } else {
        (a * b) % c
    }
}

/// Pops `a`, `b`; pushes `a + b` modulo 2^256.
pub fn add(stack: &mut Stack)
    requires
        old(stack)@.len() >= 2,
    ensures
        replaces_top(old(stack)@, final(stack)@, 2, add_spec(operand(old(stack)@, 0), operand(old(stack)@, 1))),
{
    let ghost s0 = stack@;
    let a = stack.pop();
    let b = stack.pop();
    stack.push(wrapping_add(a, b));
    assert(stack@.drop_last() =~= s0.subrange(0, s0.len() - 2));
}

/// Pops `a`, `b`; pushes `a * b` modulo 2^256.
pub fn mul(stack: &mut Stack)
    requires
        old(stack)@.len() >= 2,
    ensures
        replaces_top(old(stack)@, final(stack)@, 2, mul_spec(operand(old(stack)@, 0), operand(old(stack)@, 1))),
{
    let ghost s0 = stack@;
    let a = stack.pop();
    let b = stack.pop();
    stack.push(wrapping_mul(a, b));
    assert(stack@.drop_last() =~= s0.subrange(0, s0.len() - 2));
}

/// Pops `a`, `b`; pushes `a - b` modulo 2^256.
pub fn sub(stack: &mut Stack)
    requires
        old(stack)@.len() >= 2,
    ensures
        replaces_top(old(stack)@, final(stack)@, 2, sub_spec(operand(old(stack)@, 0), operand(old(stack)@, 1))),
{
    let ghost s0 = stack@;
    let a = stack.pop();
    let b = stack.pop();
    stack.push(wrapping_sub(a, b));
    assert(stack@.drop_last() =~= s0.subrange(0, s0.len() - 2));
}

/// Pops `a`, `b`; pushes `a / b` rounded down, or 0 when `b` is 0.
pub fn div(stack: &mut Stack)
    requires
        old(stack)@.len() >= 2,
    ensures
        replaces_top(old(stack)@, final(stack)@, 2, div_spec(operand(old(stack)@, 0), operand(old(stack)@, 1))),
{
    let ghost s0 = stack@;
    let a = stack.pop();
    let b = stack.pop();
    let v = if b.is_zero() {
        Word::zero()
    } else {
        unsigned_div(a, b)
    };
    stack.push(v);
    assert(stack@.drop_last() =~= s0.subrange(0, s0.len() - 2));
}

/// Pops `a`, `b`; pushes the signed quotient of their two's-complement views,
/// rounded toward zero and wrapped to 256 bits, or 0 when `b` is 0.
pub fn sdiv(stack: &mut Stack)
    requires
        old(stack)@.len() >= 2,
    ensures
        replaces_top(old(stack)@, final(stack)@, 2, sdiv_spec(operand(old(stack)@, 0), operand(old(stack)@, 1))),
{
    let ghost s0 = stack@;
    let a = stack.pop();
    let b = stack.pop();
    let v = if b.is_zero() {
        Word::zero()
    } else {
        signed_div(a, b)
    };
    stack.push(v);
    assert(stack@.drop_last() =~= s0.subrange(0, s0.len() - 2));
}

/// Pops `a`, `b`; pushes `a mod b`, or 0 when `b` is 0.
pub fn modulo(stack: &mut Stack)
    requires
        old(stack)@.len() >= 2,
    ensures
        replaces_top(old(stack)@, final(stack)@, 2, mod_spec(operand(old(stack)@, 0), operand(old(stack)@, 1))),
{
    let ghost s0 = stack@;
    let a = stack.pop();
    let b = stack.pop();
    let v = if b.is_zero() {
        Word::zero()
    } else {
        unsigned_rem(a, b)
    };
    stack.push(v);
    assert(stack@.drop_last() =~= s0.subrange(0, s0.len() - 2));
}

/// Pops `a`, `b`; pushes the signed remainder of their two's-complement views
/// (with the sign of `a`), or 0 when `b` is 0.
pub fn smod(stack: &mut Stack)
    requires
        old(stack)@.len() >= 2,
    ensures
        replaces_top(old(stack)@, final(stack)@, 2, smod_spec(operand(old(stack)@, 0), operand(old(stack)@, 1))),
{
    let ghost s0 = stack@;
    let a = stack.pop();
    let b = stack.pop();
    let v = if b.is_zero() {
        Word::zero()
    } else {
        signed_rem(a, b)
    };
    stack.push(v);
    assert(stack@.drop_last() =~= s0.subrange(0, s0.len() - 2));
}

/// Pops `a`, `b`, `c`; pushes `(a + b) mod c` over the exact sum, or 0 when
/// `c` is 0.
pub fn addmod(stack: &mut Stack)
    requires
        old(stack)@.len() >= 3,
    ensures
        replaces_top(
            old(stack)@,
            final(stack)@,
            3,
            addmod_spec(operand(old(stack)@, 0), operand(old(stack)@, 1), operand(old(stack)@, 2)),
        ),
{
    let ghost s0 = stack@;
    let a = stack.pop();
    let b = stack.pop();
    let c = stack.pop();
    let v = if c.is_zero() {
        Word::zero()
    } else {
        wide_rem(wide_add(a, b), c)
    };
    stack.push(v);
    assert(stack@.drop_last() =~= s0.subrange(0, s0.len() - 3));
}

/// Pops `a`, `b`, `c`; pushes `(a * b) mod c` over the exact product, or 0
/// when `c` is 0.
pub fn mulmod(stack: &mut Stack)
    requires
        old(stack)@.len() >= 3,
    ensures
        replaces_top(
            old(stack)@,
            final(stack)@,
            3,
            mulmod_spec(operand(old(stack)@, 0), operand(old(stack)@, 1), operand(old(stack)@, 2)),
        ),
{
    let ghost s0 = stack@;
    let a = stack.pop();
    let b = stack.pop();
    let c = stack.pop();
    let v = if c.is_zero() {
        Word::zero()
    } else {
        wide_rem(wide_mul(a, b), c)
    };
    stack.push(v);
    assert(stack@.drop_last() =~= s0.subrange(0, s0.len() - 3));
}

/// The largest charge that one `exp` can make: 50 for each of 32 bytes.
pub const MAX_EXP_FEE: i64 = 1600;

/// The position of the highest set bit of a positive number.
pub open spec fn log2_floor(x: nat) -> nat
    decreases x,
{
    if x <= 1 {
        0
    } else {
        1 + log2_floor(x / 2)
    }
}

/// The charge for each byte of the exponent: 10 before the Spurious revision,
/// 50 from it on.
pub open spec fn exp_rate(rev: Revision) -> int {
    if rev.rank() >= Revision::Spurious.rank() {
        50
    } else {
        10
    }
}

/// The charge of `exp` for a given exponent: nothing for 0, else the rate
/// times the number of bytes that the exponent spans.
pub open spec fn exp_fee(rev: Revision, power: nat) -> int {
    if power == 0 {
        0
    } else {
        exp_rate(rev) * (log2_floor(power) / 8 + 1)
    }
}

/// `base ^ power` modulo 2^256.
pub open spec fn exp_spec(base: nat, power: nat) -> nat {
    (pow(base as int, power) % modulus()) as nat
}

/// A number between consecutive powers of two has the lower exponent as its
/// floor logarithm.
pub proof fn lemma_log2_floor(x: nat, k: nat)
    requires
        pow2(k) <= x < pow2(k + 1),
    ensures
        log2_floor(x) == k,
    decreases k,
{
    lemma_pow2_unfold(k + 1);
    if k == 0 {
        lemma2_to64();
    } else {
        lemma_pow2_unfold(k);
        assert(pow2((k - 1) as nat) <= x / 2 < pow2(k)) by (nonlinear_arith)
            requires
                pow2(k) == 2 * pow2((k - 1) as nat),
                pow2(k + 1) == 2 * pow2(k),
                pow2(k) <= x < pow2(k + 1),
        ;
        lemma_log2_floor(x / 2, (k - 1) as nat);
    }
}

/// The position of the highest set bit of a nonzero word, found from the
/// leading zeros of its high half, or of its low half where the high half is
/// zero.
pub fn log2floor(value: Word) -> (r: u64)
    requires
        value.value() != 0,
    ensures
        r == log2_floor(value.value()),
        r < 256,
{
    proof {
        value.lemma_value_bounds();
        lemma_pow2_halves();
    }
    let p = Ghost(pow2(128));
    let v = Ghost(value.value());
    if value.hi != 0 {
        let z = leading_zeros(value.hi);
        let r = (255 - z) as u64;
        proof {
            let h = value.hi as nat;
            let l = value.lo as nat;
            let lo_e = (127 - z) as nat;
            lemma_pow2_adds(lo_e, 128);
            lemma_pow2_adds(lo_e + 1, 128);
            assert(pow2(lo_e) * p@ <= v@ < pow2(lo_e + 1) * p@) by (nonlinear_arith)
                requires
                    pow2(lo_e) <= h < pow2(lo_e + 1),
                    l < p@,
                    v@ == h * p@ + l,
            ;
            lemma_log2_floor(v@, r as nat);
        }
        r
    } else {
        let z = leading_zeros(value.lo);
        let r = (127 - z) as u64;
        proof {
            lemma_log2_floor(v@, r as nat);
        }
        r
    }
}

/// One round of square-and-multiply keeps `v * base^power` the same modulo
/// 2^256.
proof fn lemma_exp_step(v: nat, base: nat, power: nat, odd: bool)
    requires
        power > 0,
        odd == (power % 2 == 1),
    ensures
        ({
            let m = modulus();
            let v2 = if odd { ((v * base) as int % m) as nat } else { v };
            let b2 = ((base * base) as int % m) as nat;
            (v2 * pow(b2 as int, power / 2)) % m == (v * pow(base as int, power)) % m
        }),
{
    let m = modulus();
    lemma_pow2_pos(256);
    let b = base as int;
    let half = power / 2;
    let e = power % 2;
    let sq = pow(b * b, half);
    lemma_pow_mod_noop(b * b, half, m);
    lemma_square_is_pow2(b);
    lemma_pow_multiplies(b, 2, half);
    assert(power == 2 * half + e);
    lemma_pow_adds(b, 2 * half, e);
    lemma_pow0(b);
    lemma_pow1(b);
    assert(sq == pow(b, 2 * half));
    let v2 = if odd { ((v * base) as int % m) as nat } else { v };
    let b2 = ((base * base) as int % m) as nat;
    // v2 * b2^half  ==  v2 * sq  (mod m)
    lemma_mul_mod_noop_general(v2 as int, pow(b2 as int, half), m);
    lemma_mul_mod_noop_general(v2 as int, sq, m);
    if odd {
        assert(e == 1);
        lemma_mul_mod_noop_general(v * b, sq, m);
        assert(pow(b, power) == sq * b);
        assert((v * b) * sq == v * (sq * b)) by (nonlinear_arith);
    } else {
        assert(e == 0);
        assert(pow(b, power) == sq * 1);
    }
}

/// Pops `base` and `power`. For a nonzero `power` it first charges
/// `exp_fee`; if that leaves the remaining resource negative it reports
/// exhaustion and leaves the stack as it was. Otherwise it pushes
/// `base ^ power` modulo 2^256, computed by square-and-multiply.
pub fn exp(state: &mut ExecutionState) -> (r: Result<(), StatusCode>)
    requires
        old(state).stack@.len() >= 2,
        old(state).gas_left >= i64::MIN + MAX_EXP_FEE,
    ensures
        final(state).evm_revision == old(state).evm_revision,
        final(state).gas_left == old(state).gas_left - exp_fee(
            old(state).evm_revision,
            operand(old(state).stack@, 1),
        ),
        r is Err <==> (operand(old(state).stack@, 1) != 0 && final(state).gas_left < 0),
        r is Err ==> r == Err::<(), StatusCode>(StatusCode::OutOfGas) && final(state).stack@ == old(
            state,
        ).stack@,
        r is Ok ==> replaces_top(
            old(state).stack@,
            final(state).stack@,
            2,
            exp_spec(operand(old(state).stack@, 0), operand(old(state).stack@, 1)),
        ),
{
    let ghost s0 = state.stack@;
    let mut base = state.stack.get(0);
    let mut power = state.stack.get(1);
    if !power.is_zero() {
        let rate: i64 = if state.evm_revision.is_at_least(Revision::Spurious) {
            50
        } else {
            10
        };
        let bytes = (log2floor(power) / 8 + 1) as i64;
        state.gas_left = state.gas_left - rate * bytes;
        if state.gas_left < 0 {
            return Err(StatusCode::OutOfGas);
        }
    }
    state.stack.pop();
    state.stack.pop();
    let ghost base0 = base.value();
    let ghost power0 = power.value();
    let mut v = Word::one();
    proof {
        lemma_pow1(1);
        assert(v.value() * pow(base0 as int, power0) == pow(base0 as int, power0));
    }
    while !power.is_zero()
        invariant
            (v.value() * pow(base.value() as int, power.value())) % modulus() == pow(
                base0 as int,
                power0,
            ) % modulus(),
        decreases power.value(),
    {
        let odd = power.is_odd();
        proof {
            lemma_exp_step(v.value(), base.value(), power.value(), odd);
        }
        if odd {
            v = wrapping_mul(v, base);
        }
        power = power.half();
        base = wrapping_mul(base, base);
    }
    proof {
        lemma_pow0(base.value() as int);
        v.lemma_value_bounds();
        lemma_small_mod(v.value(), pow2(256));
    }
    state.stack.push(v);
    assert(state.stack@.drop_last() =~= s0.subrange(0, s0.len() - 2));
    Ok(())
}

/// `b` with the bit at position `8 * a + 7` copied into every bit above it,
/// when `a < 32`; `b` itself otherwise.
pub open spec fn signextend_spec(a: nat, b: nat) -> nat {
    if a < 32 {
        let k = 8 * a + 8;
        let low = b % pow2(k);
        if low >= pow2((k - 1) as nat) {
            (low + pow2(256) - pow2(k)) as nat
        } else {
            low
        }
    } else {
        b
    }
}

/// The low `k` bits of a word, for `k` within its low half.
proof fn lemma_mod_low_half(w: Word, k: nat)
    requires
        k <= 128,
    ensures
        w.value() % pow2(k) == w.lo as nat % pow2(k),
{
    lemma_pow2_adds(k, (128 - k) as nat);
    lemma_pow2_pos(k);
    lemma_pow2_pos((128 - k) as nat);
    let q = pow2((128 - k) as nat) as int;
    let m = pow2(k) as int;
    assert(w.value() == (w.hi * q) * m + w.lo) by (nonlinear_arith)
        requires
            w.value() == w.hi * pow2(128) + w.lo,
            pow2(128) == m * q,
    ;
    lemma_mod_multiples_vanish(w.hi * q, w.lo as int, m);
    assert((m * (w.hi * q) + w.lo) % m == w.lo as int % m);
    assert(m * (w.hi * q) == (w.hi * q) * m) by (nonlinear_arith);
}

/// The low `128 + k` bits of a word: the low `k` bits of its high half above
/// its whole low half.
proof fn lemma_mod_high_half(w: Word, k: nat)
    requires
        k <= 128,
    ensures
        pow2(128 + k) == pow2(128) * pow2(k),
        w.value() % pow2(128 + k) == (w.hi as nat % pow2(k)) * pow2(128) + w.lo,
{
    lemma_pow2_halves();
    lemma_pow2_adds(128, k);
    lemma_pow2_pos(k);
    let p = pow2(128) as int;
    lemma_fundamental_div_mod_converse(w.value() as int, p, w.hi as int, w.lo as int);
    lemma_mod_breakdown(w.value() as int, p, pow2(k) as int);
    vstd::arithmetic::mul::lemma_mul_is_commutative(p, (w.hi as int) % (pow2(k) as int));
}

/// Pops `a`, `b`; for `a < 32` pushes `b` sign-extended from its byte `a`
/// (counting from the least significant), else pushes `b` unchanged.
pub fn signextend(stack: &mut Stack)
    requires
        old(stack)@.len() >= 2,
    ensures
        replaces_top(old(stack)@, final(stack)@, 2, signextend_spec(operand(old(stack)@, 0), operand(old(stack)@, 1))),
{
    let ghost s0 = stack@;
    let a = stack.pop();
    let b = stack.pop();
    proof {
        a.lemma_value_bounds();
        lemma_pow2_halves();
    }
    let v = if a.hi == 0 && a.lo < 32 {
        let t = (8 * a.lo + 8) as u32;
        let ghost bv = b.value();
        let ghost big = pow2(256);
        let ghost p = pow2(128);
        if t <= 128 {
            let (low, neg, fill) = split_low(b.lo, t);
            proof {
                lemma_mod_low_half(b, t as nat);
            }
            if neg {
                let r = Word { hi: u128::MAX, lo: low + fill };
                proof {
                    assert(r.value() == (p - 1) * p + low + p - pow2(t as nat)) by (nonlinear_arith)
                        requires
                            r.value() == r.hi * p + r.lo,
                            r.hi == p - 1,
                            r.lo == low + p - pow2(t as nat),
                    ;
                }
                r
            } else {
                Word { hi: 0, lo: low }
            }
        } else {
            let k = t - 128;
            let (low, neg, fill) = split_low(b.hi, k);
            proof {
                lemma_mod_high_half(b, k as nat);
                lemma_pow2_adds(128, (k - 1) as nat);
                assert((t - 1) as nat == 128 + (k - 1) as nat);
                assert((low * p + b.lo >= pow2((k - 1) as nat) * p) == (low >= pow2(
                    (k - 1) as nat,
                ))) by (nonlinear_arith)
                    requires
                        b.lo < p,
                        0 < p,
                ;
                assert(pow2((k - 1) as nat) * p == p * pow2((k - 1) as nat)) by (nonlinear_arith);
            }
            if neg {
                let r = Word { hi: low + fill, lo: b.lo };
                proof {
                    assert(r.value() == low * p + b.lo + p * p - p * pow2(k as nat)) by (nonlinear_arith)
                        requires
                            r.value() == r.hi * p + r.lo,
                            r.hi == low + p - pow2(k as nat),
                            r.lo == b.lo,
                    ;
                }
                r
            } else {
                Word { hi: low, lo: b.lo }
            }
        }
    } else {
        b
    };
    stack.push(v);
    assert(stack@.drop_last() =~= s0.subrange(0, s0.len() - 2));
}

} // verus!
