use evm_arith::stack::Stack;
use evm_arith::stack_manip;
use evm_arith::word::Word;

fn w(v: u128) -> Word {
    Word { hi: 0, lo: v }
}

fn contents(s: &Stack) -> Vec<Word> {
    (0..s.len()).rev().map(|i| s.get(i)).collect()
}

#[test]
fn push_reads_big_endian() {
    let mut s = Stack::new();
    stack_manip::push(&mut s, &[0x01, 0x02, 0x03], 2);
    assert_eq!(s.pop(), w(0x0102));
    stack_manip::push(&mut s, &[0xFF], 0);
    assert_eq!(s.pop(), w(0));
    let code: Vec<u8> = (1..=33).collect();
    stack_manip::push(&mut s, &code, 32);
    let hi = u128::from_be_bytes(code[0..16].try_into().unwrap());
    let lo = u128::from_be_bytes(code[16..32].try_into().unwrap());
    assert_eq!(s.pop(), Word { hi, lo });
    stack_manip::push(&mut s, &code, 17);
    let lo = u128::from_be_bytes(code[1..17].try_into().unwrap());
    assert_eq!(s.pop(), Word { hi: 1, lo });
    assert_eq!(s.len(), 0);
}

#[test]
fn dup_then_pop_restores() {
    let mut s = Stack::new();
    s.push(w(1));
    s.push(w(2));
    let before = contents(&s);
    stack_manip::dup(&mut s, 1);
    assert_eq!(contents(&s), vec![w(1), w(2), w(2)]);
    stack_manip::pop(&mut s);
    assert_eq!(contents(&s), before);
}

#[test]
fn dup_deeper_copies() {
    let mut s = Stack::new();
    s.push(w(1));
    s.push(w(2));
    s.push(w(3));
    stack_manip::dup(&mut s, 3);
    assert_eq!(contents(&s), vec![w(1), w(2), w(3), w(1)]);
}

#[test]
fn swap_one_exchanges_pair() {
    let mut s = Stack::new();
    s.push(w(10));
    s.push(w(20));
    stack_manip::swap(&mut s, 1);
    assert_eq!(contents(&s), vec![w(20), w(10)]);
}

#[test]
fn swap_deeper_keeps_middle() {
    let mut s = Stack::new();
    for v in 1..=4 {
        s.push(w(v));
    }
    stack_manip::swap(&mut s, 3);
    assert_eq!(contents(&s), vec![w(4), w(2), w(3), w(1)]);
}

#[test]
fn pop_discards_top() {
    let mut s = Stack::new();
    s.push(w(7));
    s.push(w(8));
    stack_manip::pop(&mut s);
    assert_eq!(contents(&s), vec![w(7)]);
}
