//! The 256-bit machine word, its unsigned and two's-complement views, and the
//! fixed-width operations that are delegated to the big-integer crates.
use vstd::arithmetic::div_mod::lemma_small_mod;
use vstd::arithmetic::power2::*;
use vstd::prelude::*;

verus! {

/// A 256-bit unsigned machine word, held as its high and low 128-bit halves.
#[derive(Clone, Copy, Debug, PartialEq, Eq, Structural)]
pub struct Word {
    pub hi: u128,
    pub lo: u128,
}

/// 2^256: every unsigned result is reduced modulo this.
pub open spec fn modulus() -> int {
    pow2(256) as int
}

/// The two's-complement reading of a 256-bit value.
pub open spec fn to_signed(v: nat) -> int {
    if v < pow2(255) {
        v as int
    } else {
        v - pow2(256)
    }
}

/// The 256-bit pattern that stands for an integer, wrapping modulo 2^256.
pub open spec fn wrap(x: int) -> nat {
    (x % modulus()) as nat
}

pub open spec fn abs(x: int) -> nat {
    if x < 0 {
        (-x) as nat
    } else {
        x as nat
    }
}

/// Signed division rounding toward zero.
pub open spec fn trunc_div(x: int, y: int) -> int {
    let q = (abs(x) / abs(y)) as int;
    if (x < 0) == (y < 0) {
        q
    } else {
        -q
    }
}

/// Remainder of the division rounding toward zero: it takes the sign of `x`.
pub open spec fn trunc_rem(x: int, y: int) -> int {
    let r = (abs(x) % abs(y)) as int;
    if x < 0 {
        -r
    } else {
        r
    }
}

/// 2^128 and 2^256 as literals.
pub proof fn lemma_pow2_halves()
    ensures
        pow2(128) == 0x1_0000_0000_0000_0000_0000_0000_0000_0000nat,
        pow2(256) == pow2(128) * pow2(128),
        pow2(255) * 2 == pow2(256),
        pow2(127) * 2 == pow2(128),
{
    lemma2_to64();
    lemma_pow2_adds(64, 64);
    lemma_pow2_adds(128, 128);
    lemma_pow2_adds(127, 1);
    lemma_pow2_adds(255, 1);
}

impl Word {
    /// The unsigned value of the word.
    pub open spec fn value(self) -> nat {
        self.hi as nat * pow2(128) + self.lo as nat
    }

    /// The two's-complement signed value of the word.
    pub open spec fn signed(self) -> int {
        to_signed(self.value())
    }

    pub proof fn lemma_value_bounds(self)
        ensures
            self.value() < pow2(256),
            self.value() == 0 <==> (self.hi == 0 && self.lo == 0),
            self.hi == 0 ==> self.value() == self.lo,
    {
        lemma_pow2_halves();
        let p = pow2(128);
        assert(self.hi as nat * p <= (p - 1) * p) by (nonlinear_arith)
            requires
                self.hi < p,
        ;
    }

    pub fn zero() -> (r: Word)
        ensures
            r.value() == 0,
    {
        Word { hi: 0, lo: 0 }
    }

    pub fn one() -> (r: Word)
        ensures
            r.value() == 1,
    {
        Word { hi: 0, lo: 1 }
    }

    pub fn from_u128(v: u128) -> (r: Word)
        ensures
            r.value() == v,
    {
        Word { hi: 0, lo: v }
    }

    /// Whether the value is odd.
    pub fn is_odd(&self) -> (r: bool)
        ensures
            r == (self.value() % 2 == 1),
    {
        proof {
            lemma_pow2_halves();
            let p = pow2(128);
            assert((self.hi as nat * p + self.lo as nat) % 2 == self.lo as nat % 2) by (nonlinear_arith)
                requires
                    p == 0x1_0000_0000_0000_0000_0000_0000_0000_0000nat,
            ;
        }
        self.lo % 2 == 1
    }

    /// The value shifted right by one bit.
    pub fn half(&self) -> (r: Word)
        ensures
            r.value() == self.value() / 2,
    {
        let carry: u128 = if self.hi % 2 == 1 {
            0x8000_0000_0000_0000_0000_0000_0000_0000
        } else {
            0
        };
        let r = Word { hi: self.hi / 2, lo: self.lo / 2 + carry };
        proof {
            lemma_pow2_halves();
            let p = pow2(128);
            let h = self.hi as nat;
            let l = self.lo as nat;
            assert(h * p + l == 2 * ((h / 2) * p + (h % 2) * (p / 2) + l / 2) + l % 2) by (nonlinear_arith)
                requires
                    p == 0x1_0000_0000_0000_0000_0000_0000_0000_0000nat,
            ;
            assert((h * p + l) / 2 == (h / 2) * p + (h % 2) * (p / 2) + l / 2) by (nonlinear_arith)
                requires
                    h * p + l == 2 * ((h / 2) * p + (h % 2) * (p / 2) + l / 2) + l % 2,
                    l % 2 < 2,
            ;
        }
        r
    }

    pub fn is_zero(&self) -> (r: bool)
        ensures
            r == (self.value() == 0),
    {
        proof {
            self.lemma_value_bounds();
        }
        self.hi == 0 && self.lo == 0
    }
}

/// 2^k as a `u128`.
pub fn pow2_u128(k: u32) -> (r: u128)
    requires
        k < 128,
    ensures
        r == pow2(k as nat),
{
    proof {
        lemma_pow2_halves();
        lemma2_to64();
    }
    let mut r: u128 = 1;
    let mut i: u32 = 0;
    while i < k
        invariant
            i <= k < 128,
            r == pow2(i as nat),
            pow2(128) == 0x1_0000_0000_0000_0000_0000_0000_0000_0000nat,
        decreases k - i,
    {
        proof {
            lemma_pow2_unfold((i + 1) as nat);
            lemma_pow2_strictly_increases((i + 1) as nat, 128);
        }
        r = r * 2;
        i = i + 1;
    }
    r
}

/// The low `k` bits of `x`, whether the highest of them is set, and the value
/// of the bits of a `u128` above them all set.
pub fn split_low(x: u128, k: u32) -> (r: (u128, bool, u128))
    requires
        1 <= k <= 128,
    ensures
        r.0 == x as nat % pow2(k as nat),
        r.1 == (r.0 >= pow2((k - 1) as nat)),
        r.2 == pow2(128) - pow2(k as nat),
{
    proof {
        lemma_pow2_halves();
        lemma_pow2_unfold(k as nat);
    }
    if k == 128 {
        proof {
            lemma_small_mod(x as nat, pow2(128));
        }
        (x, x >= 0x8000_0000_0000_0000_0000_0000_0000_0000, 0)
    } else {
        proof {
            lemma_pow2_pos(k as nat);
        }
        let m = pow2_u128(k);
        let half = pow2_u128(k - 1);
        let low = x % m;
        (low, low >= half, u128::MAX - (m - 1))
    }
}

/// The big-endian unsigned value of a byte string.
pub open spec fn be_value(s: Seq<u8>) -> nat
    decreases s.len(),
{
    if s.len() == 0 {
        0
    } else {
        be_value(s.drop_last()) * 256 + s.last() as nat
    }
}

/// Relies on ethnum's `U256::from_be_bytes`: the big-endian value of 32 bytes.
#[verifier::external_body]
pub(crate) fn from_be_bytes(bytes: &[u8]) -> (r: Word)
    requires
        bytes@.len() == 32,
    ensures
        r.value() == be_value(bytes@),
{
    let arr: [u8; 32] = bytes.try_into().unwrap();
    let (hi, lo) = ethnum::U256::from_be_bytes(arr).into_words();
    Word { hi, lo }
}

/// Relies on `u128::leading_zeros`: the number of zero bits above the highest
/// set bit, 128 for zero.
#[verifier::external_body]
pub(crate) fn leading_zeros(x: u128) -> (r: u32)
    ensures
        r <= 128,
        x == 0 <==> r == 128,
        x != 0 ==> pow2((127 - r) as nat) <= x < pow2((128 - r) as nat),
{
    x.leading_zeros()
}

/// A 512-bit scratch value, as the eight little-endian 64-bit limbs that
/// ethereum-types' `U512` stores. It holds an unreduced sum or product of two
/// words and never outlives the operator that made it.
pub struct Wide {
    limbs: [u64; 8],
}

impl Wide {
    spec fn limb(self, i: int) -> nat {
        self.limbs@[i] as nat
    }

    /// The unsigned value of the limbs.
    pub closed spec fn value(self) -> nat {
        self.limb(0) + pow2(64) * (self.limb(1) + pow2(64) * (self.limb(2) + pow2(64) * (
        self.limb(3) + pow2(64) * (self.limb(4) + pow2(64) * (self.limb(5) + pow2(64) * (
        self.limb(6) + pow2(64) * self.limb(7)))))))
    }
}

/// Relies on ethnum's `U256::overflowing_add`: the sum truncated to 256 bits.
#[verifier::external_body]
pub(crate) fn wrapping_add(a: Word, b: Word) -> (r: Word)
    ensures
        r.value() == wrap((a.value() + b.value()) as int),
{
    let x = ethnum::U256::from_words(a.hi, a.lo);
    let (hi, lo) = x.overflowing_add(ethnum::U256::from_words(b.hi, b.lo)).0.into_words();
    Word { hi, lo }
}

/// Relies on ethnum's `U256::overflowing_sub`: the difference modulo 2^256.
#[verifier::external_body]
pub(crate) fn wrapping_sub(a: Word, b: Word) -> (r: Word)
    ensures
        r.value() == wrap(a.value() - b.value()),
{
    let x = ethnum::U256::from_words(a.hi, a.lo);
    let (hi, lo) = x.overflowing_sub(ethnum::U256::from_words(b.hi, b.lo)).0.into_words();
    Word { hi, lo }
}

/// Relies on ethnum's `U256::overflowing_mul`: the product truncated to 256 bits.
#[verifier::external_body]
pub(crate) fn wrapping_mul(a: Word, b: Word) -> (r: Word)
    ensures
        r.value() == wrap((a.value() * b.value()) as int),
{
    let x = ethnum::U256::from_words(a.hi, a.lo);
    let (hi, lo) = x.overflowing_mul(ethnum::U256::from_words(b.hi, b.lo)).0.into_words();
    Word { hi, lo }
}

/// Relies on ethnum's `U256` division operator, which panics on a zero divisor.
#[verifier::external_body]
pub(crate) fn unsigned_div(a: Word, b: Word) -> (r: Word)
    requires
        b.value() != 0,
    ensures
        r.value() == a.value() / b.value(),
{
    let x = ethnum::U256::from_words(a.hi, a.lo);
    let (hi, lo) = (x / ethnum::U256::from_words(b.hi, b.lo)).into_words();
    Word { hi, lo }
}

/// Relies on ethnum's `U256` remainder operator, which panics on a zero divisor.
#[verifier::external_body]
pub(crate) fn unsigned_rem(a: Word, b: Word) -> (r: Word)
    requires
        b.value() != 0,
    ensures
        r.value() == a.value() % b.value(),
{
    let x = ethnum::U256::from_words(a.hi, a.lo);
    let (hi, lo) = (x % ethnum::U256::from_words(b.hi, b.lo)).into_words();
    Word { hi, lo }
}

/// Relies on i256's `I256::wrapping_div`: division of the two's-complement
/// values rounding toward zero, with `MIN / -1` wrapping to `MIN`; it panics
/// on a zero divisor. The operands cross over as big-endian bytes.
#[verifier::external_body]
pub(crate) fn signed_div(a: Word, b: Word) -> (r: Word)
    requires
        b.value() != 0,
    ensures
        r.value() == wrap(trunc_div(a.signed(), b.signed())),
{
    let x = i256::I256::from_be_bytes(ethnum::U256::from_words(a.hi, a.lo).to_be_bytes());
    let y = i256::I256::from_be_bytes(ethnum::U256::from_words(b.hi, b.lo).to_be_bytes());
    let (hi, lo) = ethnum::U256::from_be_bytes(x.wrapping_div(y).to_be_bytes()).into_words();
    Word { hi, lo }
}

/// Relies on i256's `I256::wrapping_rem`: the remainder of the division
/// rounding toward zero, with the sign of the dividend; it panics on a zero
/// divisor. The operands cross over as big-endian bytes.
#[verifier::external_body]
pub(crate) fn signed_rem(a: Word, b: Word) -> (r: Word)
    requires
        b.value() != 0,
    ensures
        r.value() == wrap(trunc_rem(a.signed(), b.signed())),
{
    let x = i256::I256::from_be_bytes(ethnum::U256::from_words(a.hi, a.lo).to_be_bytes());
    let y = i256::I256::from_be_bytes(ethnum::U256::from_words(b.hi, b.lo).to_be_bytes());
    let (hi, lo) = ethnum::U256::from_be_bytes(x.wrapping_rem(y).to_be_bytes()).into_words();
    Word { hi, lo }
}

/// Relies on ethereum-types' `U512` addition, which cannot overflow on two
/// 256-bit operands. The operands cross over as big-endian bytes.
#[verifier::external_body]
pub(crate) fn wide_add(a: Word, b: Word) -> (r: Wide)
    ensures
        r.value() == a.value() + b.value(),
{
    let x = ethereum_types::U512::from_big_endian(&ethnum::U256::from_words(a.hi, a.lo).to_be_bytes());
    let y = ethereum_types::U512::from_big_endian(&ethnum::U256::from_words(b.hi, b.lo).to_be_bytes());
    Wide { limbs: (x + y).0 }
}

/// Relies on ethereum-types' `U512` multiplication, which cannot overflow on
/// two 256-bit operands. The operands cross over as big-endian bytes.
#[verifier::external_body]
pub(crate) fn wide_mul(a: Word, b: Word) -> (r: Wide)
    ensures
        r.value() == a.value() * b.value(),
{
    let x = ethereum_types::U512::from_big_endian(&ethnum::U256::from_words(a.hi, a.lo).to_be_bytes());
    let y = ethereum_types::U512::from_big_endian(&ethnum::U256::from_words(b.hi, b.lo).to_be_bytes());
    Wide { limbs: (x * y).0 }
}

/// Relies on ethereum-types' `U512` remainder operator, which panics on a zero
/// divisor, and on its conversion to `U256`, which succeeds because the
/// remainder is below the 256-bit divisor.
#[verifier::external_body]
pub(crate) fn wide_rem(x: Wide, c: Word) -> (r: Word)
    requires
        c.value() != 0,
    ensures
        r.value() == x.value() % c.value(),
{
    let m = ethereum_types::U512::from_big_endian(&ethnum::U256::from_words(c.hi, c.lo).to_be_bytes());
    let v = ethereum_types::U256::try_from(ethereum_types::U512(x.limbs) % m).unwrap();
    let (hi, lo) = ethnum::U256::from_be_bytes(v.to_big_endian()).into_words();
    Word { hi, lo }
}

} // verus!
