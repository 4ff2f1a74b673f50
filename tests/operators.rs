use evm_arith::arithmetic;
use evm_arith::stack::Stack;
use evm_arith::state::{ExecutionState, Revision, StatusCode};
use evm_arith::word::Word;

const MAX: Word = Word { hi: u128::MAX, lo: u128::MAX };

fn w(v: u128) -> Word {
    Word { hi: 0, lo: v }
}

/// Minus `v` in two's complement.
fn neg(v: u128) -> Word {
    let lo = 0u128.wrapping_sub(v);
    let hi = if v == 0 { 0 } else { u128::MAX };
    Word { hi, lo }
}

/// A stack whose top is the first word given.
fn stack_of(top_first: &[Word]) -> Stack {
    let mut s = Stack::new();
    for x in top_first.iter().rev() {
        s.push(*x);
    }
    s
}

fn run(op: fn(&mut Stack), top_first: &[Word]) -> Word {
    let mut s = stack_of(top_first);
    let before = s.len();
    op(&mut s);
    assert_eq!(s.len(), before - top_first.len() + 1);
    s.pop()
}

#[test]
fn add_wraps_on_overflow() {
    assert_eq!(run(arithmetic::add, &[MAX, w(1)]), w(0));
    assert_eq!(run(arithmetic::add, &[w(2), w(3)]), w(5));
    assert_eq!(run(arithmetic::add, &[w(u128::MAX), w(1)]), Word { hi: 1, lo: 0 });
}

#[test]
fn add_keeps_words_below_operands() {
    let mut s = stack_of(&[w(2), w(3), w(99)]);
    arithmetic::add(&mut s);
    assert_eq!(s.len(), 2);
    assert_eq!(s.pop(), w(5));
    assert_eq!(s.pop(), w(99));
}

#[test]
fn mul_wraps() {
    assert_eq!(run(arithmetic::mul, &[w(6), w(7)]), w(42));
    assert_eq!(run(arithmetic::mul, &[MAX, w(2)]), Word { hi: u128::MAX, lo: u128::MAX - 1 });
}

#[test]
fn sub_takes_second_from_first() {
    assert_eq!(run(arithmetic::sub, &[w(10), w(3)]), w(7));
    assert_eq!(run(arithmetic::sub, &[w(0), w(1)]), MAX);
}

#[test]
fn div_rounds_down() {
    assert_eq!(run(arithmetic::div, &[w(7), w(2)]), w(3));
    assert_eq!(run(arithmetic::div, &[Word { hi: 1, lo: 0 }, w(2)]), Word { hi: 0, lo: 1u128 << 127 });
}

#[test]
fn division_by_zero_gives_zero() {
    assert_eq!(run(arithmetic::div, &[w(7), w(0)]), w(0));
    assert_eq!(run(arithmetic::modulo, &[w(7), w(0)]), w(0));
    assert_eq!(run(arithmetic::sdiv, &[neg(7), w(0)]), w(0));
    assert_eq!(run(arithmetic::smod, &[neg(7), w(0)]), w(0));
    assert_eq!(run(arithmetic::div, &[MAX, w(0)]), w(0));
}

#[test]
fn modulo_unsigned() {
    assert_eq!(run(arithmetic::modulo, &[w(17), w(5)]), w(2));
    assert_eq!(run(arithmetic::modulo, &[MAX, w(10)]), w(5));
}

#[test]
fn sdiv_truncates_toward_zero() {
    assert_eq!(run(arithmetic::sdiv, &[neg(7), w(2)]), neg(3));
    assert_eq!(run(arithmetic::sdiv, &[w(7), neg(2)]), neg(3));
    assert_eq!(run(arithmetic::sdiv, &[neg(7), neg(2)]), w(3));
}

#[test]
fn sdiv_min_by_minus_one_wraps() {
    let min = Word { hi: 1u128 << 127, lo: 0 };
    assert_eq!(run(arithmetic::sdiv, &[min, neg(1)]), min);
}

#[test]
fn smod_takes_sign_of_dividend() {
    assert_eq!(run(arithmetic::smod, &[neg(7), w(3)]), neg(1));
    assert_eq!(run(arithmetic::smod, &[w(7), neg(3)]), w(1));
    assert_eq!(run(arithmetic::smod, &[neg(8), neg(3)]), neg(2));
}

#[test]
fn addmod_and_mulmod_by_zero_give_zero() {
    assert_eq!(run(arithmetic::addmod, &[w(5), w(6), w(0)]), w(0));
    assert_eq!(run(arithmetic::mulmod, &[w(5), w(6), w(0)]), w(0));
    assert_eq!(run(arithmetic::mulmod, &[MAX, MAX, w(0)]), w(0));
}

#[test]
fn addmod_uses_exact_sum() {
    assert_eq!(run(arithmetic::addmod, &[w(5), w(6), w(7)]), w(4));
    // 2 * (2^256 - 1) mod 7 is 2; a 256-bit sum would give 0
    assert_eq!(run(arithmetic::addmod, &[MAX, MAX, w(7)]), w(2));
}

#[test]
fn mulmod_uses_exact_product() {
    assert_eq!(run(arithmetic::mulmod, &[w(5), w(6), w(7)]), w(2));
    assert_eq!(run(arithmetic::mulmod, &[MAX, MAX, w(7)]), w(1));
    // 2^256 mod 3 is 1; a 256-bit product would give 0
    let p = Word { hi: 1, lo: 0 };
    assert_eq!(run(arithmetic::mulmod, &[p, p, w(3)]), w(1));
    assert_eq!(run(arithmetic::mulmod, &[MAX, MAX, MAX]), w(0));
}

#[test]
fn log2floor_finds_highest_bit() {
    assert_eq!(arithmetic::log2floor(w(1)), 0);
    assert_eq!(arithmetic::log2floor(w(255)), 7);
    assert_eq!(arithmetic::log2floor(w(256)), 8);
    assert_eq!(arithmetic::log2floor(Word { hi: 1, lo: 0 }), 128);
    assert_eq!(arithmetic::log2floor(MAX), 255);
}

fn exp_state(base: Word, power: Word, gas: i64, rev: Revision) -> ExecutionState {
    let mut st = ExecutionState::new(gas, rev);
    st.stack.push(w(42));
    st.stack.push(power);
    st.stack.push(base);
    st
}

#[test]
fn exp_zero_power_is_one() {
    for base in [w(0), w(5), MAX] {
        let mut st = exp_state(base, w(0), 0, Revision::London);
        assert_eq!(arithmetic::exp(&mut st), Ok(()));
        assert_eq!(st.gas_left, 0);
        assert_eq!(st.stack.len(), 2);
        assert_eq!(st.stack.pop(), w(1));
    }
}

#[test]
fn exp_values() {
    let mut st = exp_state(w(3), w(5), 1000, Revision::London);
    assert_eq!(arithmetic::exp(&mut st), Ok(()));
    assert_eq!(st.stack.pop(), w(243));
    assert_eq!(st.gas_left, 950);

    let mut st = exp_state(w(2), w(256), 1000, Revision::London);
    assert_eq!(arithmetic::exp(&mut st), Ok(()));
    assert_eq!(st.stack.pop(), w(0));
    assert_eq!(st.gas_left, 900);

    let mut st = exp_state(w(2), w(255), 1000, Revision::Frontier);
    assert_eq!(arithmetic::exp(&mut st), Ok(()));
    assert_eq!(st.stack.pop(), Word { hi: 1u128 << 127, lo: 0 });
    assert_eq!(st.gas_left, 990);
}

#[test]
fn exp_fee_by_revision_and_size() {
    let mut st = exp_state(w(1), MAX, 10_000, Revision::Spurious);
    assert_eq!(arithmetic::exp(&mut st), Ok(()));
    assert_eq!(st.gas_left, 10_000 - 50 * 32);
    let mut st = exp_state(w(1), MAX, 10_000, Revision::Tangerine);
    assert_eq!(arithmetic::exp(&mut st), Ok(()));
    assert_eq!(st.gas_left, 10_000 - 10 * 32);
}

#[test]
fn exp_out_of_gas_leaves_stack() {
    let mut st = exp_state(w(3), w(5), 49, Revision::London);
    assert_eq!(arithmetic::exp(&mut st), Err(StatusCode::OutOfGas));
    assert_eq!(st.gas_left, -1);
    assert_eq!(st.stack.len(), 3);
    assert_eq!(st.stack.get(0), w(3));
    assert_eq!(st.stack.get(1), w(5));
    assert_eq!(st.stack.get(2), w(42));
}

#[test]
fn exp_exact_budget_succeeds() {
    let mut st = exp_state(w(3), w(5), 50, Revision::London);
    assert_eq!(arithmetic::exp(&mut st), Ok(()));
    assert_eq!(st.gas_left, 0);
    assert_eq!(st.stack.len(), 2);
    assert_eq!(st.stack.pop(), w(243));
}

#[test]
fn signextend_from_low_byte() {
    assert_eq!(run(arithmetic::signextend, &[w(0), w(0xFF)]), MAX);
    assert_eq!(run(arithmetic::signextend, &[w(0), w(0x7F)]), w(0x7F));
    assert_eq!(run(arithmetic::signextend, &[w(0), w(0x1280)]), neg(0x80));
    assert_eq!(run(arithmetic::signextend, &[w(0), w(0xFF7F)]), w(0x7F));
}

#[test]
fn signextend_large_index_is_identity() {
    let b = Word { hi: 0x1234, lo: 0x8080 };
    assert_eq!(run(arithmetic::signextend, &[w(32), b]), b);
    assert_eq!(run(arithmetic::signextend, &[MAX, b]), b);
    assert_eq!(run(arithmetic::signextend, &[Word { hi: 1, lo: 0 }, b]), b);
    assert_eq!(run(arithmetic::signextend, &[w(31), MAX]), MAX);
    assert_eq!(run(arithmetic::signextend, &[w(31), b]), b);
}

#[test]
fn signextend_at_half_boundaries() {
    let b = Word { hi: 0xAB, lo: 1u128 << 127 };
    assert_eq!(run(arithmetic::signextend, &[w(15), b]), Word { hi: u128::MAX, lo: 1u128 << 127 });
    assert_eq!(run(arithmetic::signextend, &[w(16), b]), Word { hi: u128::MAX - 0x54, lo: 1u128 << 127 });
    let c = Word { hi: 0x7F, lo: 5 };
    assert_eq!(run(arithmetic::signextend, &[w(16), c]), c);
    assert_eq!(run(arithmetic::signextend, &[w(1), w(0xABCD_8001)]), neg(0x7FFF));
}
