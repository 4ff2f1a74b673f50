//! Operators that move words on the stack: push a constant, duplicate, swap
//! and discard.
use crate::stack::{at_depth, swapped, Stack};
use crate::word::{be_value, from_be_bytes};
use vstd::prelude::*;

verus! {

/// A string of `n` zero bytes.
pub open spec fn zeros(n: nat) -> Seq<u8> {
    Seq::new(n, |i: int| 0u8)
}

/// Leading zero bytes do not change a big-endian value.
pub proof fn lemma_be_value_zero_prefix(n: nat, s: Seq<u8>)
    ensures
        be_value(zeros(n) + s) == be_value(s),
    decreases s.len() + n,
{
    if s.len() == 0 {
        assert(zeros(n) + s =~= zeros(n));
        if n > 0 {
            assert(zeros(n).drop_last() =~= zeros((n - 1) as nat));
            lemma_be_value_zero_prefix((n - 1) as nat, s);
            assert(zeros((n - 1) as nat) + s =~= zeros((n - 1) as nat));
        }
    } else {
        assert((zeros(n) + s).drop_last() =~= zeros(n) + s.drop_last());
        lemma_be_value_zero_prefix(n, s.drop_last());
    }
}

/// Pushes the big-endian value of the first `push_len` bytes of `code`.
pub fn push(stack: &mut Stack, code: &[u8], push_len: usize)
    requires
        push_len <= 32,
        push_len <= code@.len(),
    ensures
        final(stack)@.len() == old(stack)@.len() + 1,
        final(stack)@.drop_last() == old(stack)@,
        final(stack)@.last().value() == be_value(code@.subrange(0, push_len as int)),
{
    let mut buf: Vec<u8> = Vec::new();
    let pad: usize = 32 - push_len;
    let mut i: usize = 0;
    while i < pad
        invariant
            i <= pad,
            buf@ == zeros(i as nat),
        decreases pad - i,
    {
        buf.push(0u8);
        i = i + 1;
        assert(buf@ =~= zeros(i as nat));
    }
    let mut j: usize = 0;
    while j < push_len
        invariant
            j <= push_len <= code@.len(),
            pad + push_len == 32,
            buf@ == zeros(pad as nat) + code@.subrange(0, j as int),
        decreases push_len - j,
    {
        buf.push(code[j]);
        j = j + 1;
        assert(buf@ =~= zeros(pad as nat) + code@.subrange(0, j as int));
    }
    proof {
        lemma_be_value_zero_prefix(pad as nat, code@.subrange(0, push_len as int));
    }
    let w = from_be_bytes(buf.as_slice());
    stack.push(w);
}

/// Pushes a copy of the word at depth `height - 1` (1 is the top).
pub fn dup(stack: &mut Stack, height: usize)
    requires
        1 <= height <= old(stack)@.len(),
    ensures
        final(stack)@ == old(stack)@.push(at_depth(old(stack)@, height - 1)),
{
    let w = stack.get(height - 1);
    stack.push(w);
}

/// Exchanges the top with the word at depth `height`.
pub fn swap(stack: &mut Stack, height: usize)
    requires
        height < old(stack)@.len(),
    ensures
        final(stack)@ == swapped(old(stack)@, height as int),
{
    stack.swap_top(height);
}

/// Discards the top.
pub fn pop(stack: &mut Stack)
    requires
        old(stack)@.len() > 0,
    ensures
        final(stack)@ == old(stack)@.drop_last(),
{
    stack.pop();
}

} // verus!
