//! Properties that hold across all inputs of the operators, stated over the
//! spec functions that the operators' contracts use.
use crate::arithmetic::{
    addmod_spec, div_spec, exp_fee, exp_spec, mod_spec, mulmod_spec, sdiv_spec, signextend_spec,
    smod_spec,
};
use crate::stack::{at_depth, swapped};
use crate::state::Revision;
use crate::word::{lemma_pow2_halves, Word};
use vstd::arithmetic::div_mod::*;
use vstd::arithmetic::power::*;
use vstd::arithmetic::power2::*;
use vstd::prelude::*;

verus! {

/// Bit `i` of `x`.
pub open spec fn bit(x: nat, i: nat) -> bool {
    (x / pow2(i)) % 2 == 1
}

/// Division and remainder, unsigned or signed, by zero give zero.
pub proof fn law_division_by_zero(a: nat)
    ensures
        div_spec(a, 0) == 0,
        mod_spec(a, 0) == 0,
        sdiv_spec(a, 0) == 0,
        smod_spec(a, 0) == 0,
{
}

/// Modular addition and multiplication with modulus zero give zero.
pub proof fn law_modular_by_zero(a: nat, b: nat)
    ensures
        addmod_spec(a, b, 0) == 0,
        mulmod_spec(a, b, 0) == 0,
{
}

/// Any base raised to the power zero is one, zero included, and such an
/// exponentiation is charged nothing.
pub proof fn law_exp_zero_power(base: nat, rev: Revision)
    ensures
        exp_spec(base, 0) == 1,
        exp_fee(rev, 0) == 0,
{
    lemma_pow0(base as int);
    lemma_pow2_halves();
    lemma_small_mod(1, pow2(256));
}

/// Sign extension from a byte index of 32 or more leaves the word unchanged.
pub proof fn law_signextend_identity(a: nat, b: nat)
    requires
        a >= 32,
    ensures
        signextend_spec(a, b) == b,
{
}

/// Sign extension from byte `a` keeps the bits at or below position
/// `8 * a + 7` and sets every bit above it, up to bit 255, to the bit at that
/// position.
pub proof fn law_signextend_bits(a: nat, b: nat, i: nat)
    requires
        a < 32,
        b < pow2(256),
    ensures
        signextend_spec(a, b) % pow2(8 * a + 8) == b % pow2(8 * a + 8),
        8 * a + 8 <= i < 256 ==> bit(signextend_spec(a, b), i) == bit(b, 8 * a + 7),
{
    let k = 8 * a + 8;
    let s = (k - 1) as nat;
    let mk = pow2(k);
    let ms = pow2(s);
    let low = b % mk;
    let r = signextend_spec(a, b);
    lemma_pow2_unfold(k);
    lemma_pow2_pos(s);
    lemma_pow2_pos(k);
    lemma_pow2_adds(k, (256 - k) as nat);
    lemma_pow2_pos((256 - k) as nat);
    // the sign bit is set exactly when the low k bits reach 2^(k-1)
    assert(ms * 2 == mk);
    lemma_mod_breakdown(b as int, ms as int, 2);
    let d = (b / ms) % 2;
    assert(d == 0 || d == 1);
    assert(low == ms * d + b % ms);
    if d == 1 {
        assert(ms * d == ms) by (nonlinear_arith)
            requires
                d == 1,
        ;
    } else {
        assert(ms * d == 0) by (nonlinear_arith)
            requires
                d == 0,
        ;
    }
    assert(bit(b, s) == (low >= ms));
    assert(pow2(256) >= mk) by (nonlinear_arith)
        requires
            pow2(256) == mk * pow2((256 - k) as nat),
            pow2((256 - k) as nat) > 0,
            mk > 0,
    ;
    let upper = (pow2(256) - mk) as nat;
    assert(upper == mk * (pow2((256 - k) as nat) - 1)) by (nonlinear_arith)
        requires
            pow2(256) == mk * pow2((256 - k) as nat),
            upper == pow2(256) - mk,
    ;
    if low >= ms {
        lemma_mod_multiples_vanish((pow2((256 - k) as nat) - 1) as int, low as int, mk as int);
        lemma_small_mod(low, mk);
        assert(r == mk * (pow2((256 - k) as nat) - 1) + low);
    } else {
        lemma_small_mod(low, mk);
    }
    if 8 * a + 8 <= i < 256 {
        let mi = pow2(i);
        let e = (256 - i) as nat;
        lemma_pow2_pos(i);
        lemma_pow2_adds(i, e);
        if k < i {
            lemma_pow2_strictly_increases(k, i);
        }
        assert(low < mi);
        if low >= ms {
            // r == 2^256 - (2^k - low), with 0 < 2^k - low <= 2^i
            lemma_pow2_unfold(e);
            let q = (pow2(e) - 1) as int;
            let rem = (mi - (mk - low)) as int;
            assert(r as int == q * mi + rem) by (nonlinear_arith)
                requires
                    r == pow2(256) - mk + low,
                    pow2(256) == mi * pow2(e),
                    q == pow2(e) - 1,
                    rem == mi - (mk - low),
            ;
            lemma_fundamental_div_mod_converse(r as int, mi as int, q, rem);
            assert(pow2(e) == 2 * pow2((e - 1) as nat));
            lemma_mod_multiples_vanish(pow2((e - 1) as nat) as int, -1, 2);
            assert((2 * pow2((e - 1) as nat) - 1) % 2 == 1) by {
                lemma_mod_multiples_vanish(pow2((e - 1) as nat) as int - 1, 1, 2);
            }
        } else {
            lemma_basic_div(r as int, mi as int);
        }
    }
}

/// Duplicating the word at any depth and then discarding the top gives back
/// the stack as it was.
pub proof fn law_dup_then_pop(s: Seq<Word>, height: int)
    requires
        1 <= height <= s.len(),
    ensures
        s.push(at_depth(s, height - 1)).drop_last() == s,
{
    assert(s.push(at_depth(s, height - 1)).drop_last() =~= s);
}

/// Swapping the top of a two-word stack with the word below exchanges them.
pub proof fn law_swap_pair(x: Word, y: Word)
    ensures
        swapped(seq![x, y], 1) == seq![y, x],
{
    assert(swapped(seq![x, y], 1) =~= seq![y, x]);
}

} // verus!
