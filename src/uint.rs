//! Fixed-width 256-bit unsigned integers made of four 64-bit words,
//! the least significant word first. All arithmetic wraps modulo 2^256.
use vstd::arithmetic::div_mod::*;
use vstd::arithmetic::power2::*;
use crate::util::{bit_of, BitArray};
use vstd::prelude::*;

verus! {

/// 2^64, the weight of one word over the one below it.
pub open spec fn word_base() -> nat {
    0x1_0000_0000_0000_0000
}

/// 2^256, the size of the value space.
pub open spec fn modulus() -> nat {
    0x1_0000_0000_0000_0000 * 0x1_0000_0000_0000_0000 * 0x1_0000_0000_0000_0000 * 0x1_0000_0000_0000_0000
}

/// The number that four little-endian words stand for.
pub open spec fn words_value(a: u64, b: u64, c: u64, d: u64) -> nat {
    a as nat + 0x1_0000_0000_0000_0000 * (b as nat + 0x1_0000_0000_0000_0000 * (c as nat + 0x1_0000_0000_0000_0000 * d as nat))
}

/// Number of bits needed to write `v`: zero for zero.
pub open spec fn bit_length(v: nat) -> nat
    decreases v,
{
    if v == 0 {
        0
    } else {
        1 + bit_length(v / 2)
    }
}

/// A 256-bit unsigned integer; word 0 is the least significant.
#[derive(Clone, Copy, Debug, PartialEq, Eq)]
pub struct Uint256(pub [u64; 4]);

impl Uint256 {
    /// The number this value stands for.
    pub open spec fn value(self) -> nat {
        words_value(self.0@[0], self.0@[1], self.0@[2], self.0@[3])
    }

    pub fn zero() -> (r: Uint256)
        ensures
            r.value() == 0,
    {
        Uint256([0, 0, 0, 0])
    }

    /// Zero-extends `x` into the low word.
    pub fn from_u64(x: u64) -> (r: Uint256)
        ensures
            r.value() == x as nat,
    {
        Uint256([x, 0, 0, 0])
    }

    pub fn low_u64(&self) -> (r: u64)
        ensures
            r as nat == self.value() % word_base(),
    {
        self.0[0]
    }

    pub fn low_u32(&self) -> (r: u32)
        ensures
            r as nat == self.value() % 0x1_0000_0000,
    {
        let w = self.0[0];
        assert(self.value() % 0x1_0000_0000 == w as nat % 0x1_0000_0000);
        (w % 0x1_0000_0000) as u32
    }

    pub fn is_zero(&self) -> (r: bool)
        ensures
            r == (self.value() == 0),
    {
        self.0[0] == 0 && self.0[1] == 0 && self.0[2] == 0 && self.0[3] == 0
    }

    /// Ripple-carry increment; the largest value wraps to zero.
    pub fn increment_by_one(&mut self)
        ensures
            final(self).value() == (old(self).value() + 1) % modulus(),
    {
        let a = self.0[0];
        let b = self.0[1];
        let c = self.0[2];
        let d = self.0[3];
        let ghost v = self.value();
        if a < u64::MAX {
            *self = Uint256([a + 1, b, c, d]);
        } else if b < u64::MAX {
            *self = Uint256([0, b + 1, c, d]);
        } else if c < u64::MAX {
            *self = Uint256([0, 0, c + 1, d]);
        } else if d < u64::MAX {
            *self = Uint256([0, 0, 0, d + 1]);
        } else {
            *self = Uint256([0, 0, 0, 0]);
            proof {
                lemma_mod_self_0(modulus() as int);
            }
        }
        proof {
            if self.value() != 0 {
                assert(self.value() == v + 1);
                lemma_small_mod(v + 1, modulus());
            }
        }
    }

    /// Wrapping sum.
    pub fn wrapping_add(&self, other: &Uint256) -> (r: Uint256)
        ensures
            r.value() == (self.value() + other.value()) % modulus(),
    {
        let (s0, c0) = add_word(self.0[0], other.0[0], 0);
        let (s1, c1) = add_word(self.0[1], other.0[1], c0);
        let (s2, c2) = add_word(self.0[2], other.0[2], c1);
        let (s3, c3) = add_word(self.0[3], other.0[3], c2);
        let r = Uint256([s0, s1, s2, s3]);
        proof {
            lemma_carry_chain(self.0@[0], self.0@[1], self.0@[2], self.0@[3], other.0@[0], other.0@[1], other.0@[2], other.0@[3], s0, s1, s2, s3, c0, c1, c2, c3);
        }
        proof {
            lemma_mod_multiples_vanish(c3 as int, r.value() as int, modulus() as int);
            lemma_small_mod(r.value(), modulus());
        }
        r
    }

    /// Bitwise complement: `2^256 - 1 - self`.
    pub fn complement(&self) -> (r: Uint256)
        ensures
            r.value() == modulus() - 1 - self.value(),
    {
        let r = Uint256([not_word(self.0[0]), not_word(self.0[1]), not_word(self.0[2]), not_word(self.0[3])]);
        r
    }

    /// Wrapping difference.
    pub fn wrapping_sub(&self, other: &Uint256) -> (r: Uint256)
        ensures
            r.value() == (self.value() + modulus() - other.value()) % (modulus() as int),
    {
        let mut neg = other.complement();
        neg.increment_by_one();
        let r = self.wrapping_add(&neg);
        proof {
            let m = modulus() as int;
            lemma_add_mod_noop_right(self.value() as int, m - other.value(), m);
        }
        r
    }

    /// Whether `self <= other`, comparing words from the most significant.
    pub fn le(&self, other: &Uint256) -> (r: bool)
        ensures
            r == (self.value() <= other.value()),
    {
        if self.0[3] != other.0[3] {
            self.0[3] < other.0[3]
        } else if self.0[2] != other.0[2] {
            self.0[2] < other.0[2]
        } else if self.0[1] != other.0[1] {
            self.0[1] < other.0[1]
        } else {
            self.0[0] <= other.0[0]
        }
    }

    /// Whether the two values are equal.
    pub fn same_as(&self, other: &Uint256) -> (r: bool)
        ensures
            r == (self.value() == other.value()),
    {
        self.0[0] == other.0[0] && self.0[1] == other.0[1] && self.0[2] == other.0[2]
            && self.0[3] == other.0[3]
    }

    /// Halves the value, dropping the lowest bit.
    pub fn shr_one(&self) -> (r: Uint256)
        ensures
            r.value() == self.value() / 2,
    {
        let (a, b, c, d) = (self.0[0], self.0[1], self.0[2], self.0[3]);
        let r = Uint256([half_with(a, b), half_with(b, c), half_with(c, d), d / 2]);
        assert(2 * r.value() + a as nat % 2 == self.value());
        r
    }
}

impl Uint256 {
    /// Shift left by `n` bits; bits pushed past the top are lost.
    pub fn shl(&self, n: usize) -> (r: Uint256)
        ensures
            r.value() == (self.value() * pow2(n as nat)) % modulus(),
    {
        let steps: usize = if n < 256 { n } else { 256 };
        let mut cur = *self;
        let mut i: usize = 0;
        proof {
            lemma2_to64();
            lemma_small_mod(self.value(), modulus());
        }
        while i < steps
            invariant
                steps <= 256,
                i <= steps,
                cur.value() == (self.value() * pow2(i as nat)) % modulus(),
            decreases steps - i,
        {
            let next = cur.wrapping_add(&cur);
            proof {
                let x = self.value() * pow2(i as nat);
                lemma_pow2_unfold((i + 1) as nat);
                lemma_mul_mod_noop_right(2, x as int, modulus() as int);
                assert(self.value() * pow2((i + 1) as nat) == 2 * x) by (nonlinear_arith)
                    requires
                        pow2((i + 1) as nat) == 2 * pow2(i as nat),
                        x == self.value() * pow2(i as nat),
                ;
            }
            cur = next;
            i = i + 1;
        }
        proof {
            if n >= 256 {
                lemma_modulus_is_pow2();
                lemma_pow2_adds(256, (n - 256) as nat);
                let k = self.value() * pow2((n - 256) as nat);
                assert(self.value() * pow2(n as nat) == k * modulus()) by (nonlinear_arith)
                    requires
                        pow2(n as nat) == modulus() * pow2((n - 256) as nat),
                        k == self.value() * pow2((n - 256) as nat),
                ;
                assert(self.value() * pow2(256) == self.value() * modulus());
                lemma_mod_multiples_basic(k as int, modulus() as int);
                lemma_mod_multiples_basic(self.value() as int, modulus() as int);
            }
        }
        cur
    }

    /// Shift right by `n` bits.
    pub fn shr(&self, n: usize) -> (r: Uint256)
        ensures
            r.value() == self.value() / pow2(n as nat),
    {
        let steps: usize = if n < 256 { n } else { 256 };
        let mut cur = *self;
        let mut i: usize = 0;
        proof {
            lemma2_to64();
        }
        while i < steps
            invariant
                steps <= 256,
                i <= steps,
                cur.value() == self.value() / pow2(i as nat),
            decreases steps - i,
        {
            let next = cur.shr_one();
            proof {
                lemma_pow2_unfold((i + 1) as nat);
                lemma_pow2_pos(i as nat);
                lemma_div_denominator(self.value() as int, pow2(i as nat) as int, 2);
            }
            cur = next;
            i = i + 1;
        }
        proof {
            if n >= 256 {
                lemma_modulus_is_pow2();
                self.lemma_bounded();
                lemma_basic_div(self.value() as int, modulus() as int);
                if n > 256 {
                    lemma_pow2_strictly_increases(256, n as nat);
                }
                lemma_basic_div(self.value() as int, pow2(n as nat) as int);
            }
        }
        cur
    }

    /// Number of bits needed to write the value.
    pub fn bits(&self) -> (r: usize)
        ensures
            r as nat == bit_length(self.value()),
            r <= 256,
    {
        let mut cur = *self;
        let mut k: usize = 0;
        proof {
            self.lemma_bounded();
            lemma_modulus_is_pow2();
            lemma_bit_length_bound(self.value(), 256);
        }
        while !cur.is_zero()
            invariant
                k + bit_length(cur.value()) == bit_length(self.value()),
                bit_length(self.value()) <= 256,
            decreases cur.value(),
        {
            cur = cur.shr_one();
            k = k + 1;
        }
        k
    }

    pub proof fn lemma_bounded(self)
        ensures
            self.value() < modulus(),
    {
    }
}

impl Uint256 {
    /// Lowest bit of the value.
    pub fn low_bit(&self) -> (r: u64)
        ensures
            r as nat == self.value() % 2,
    {
        let w = self.0[0];
        assert(self.value() % 2 == w as nat % 2);
        w % 2
    }

    #[verifier::rlimit(60)]
    /// Floor quotient, by binary long division from the top bit down.
    pub fn divide(&self, other: &Uint256) -> (r: Uint256)
        requires
            other.value() != 0,
        ensures
            r.value() == self.value() / other.value(),
    {
        let ghost a = self.value();
        let ghost b = other.value();
        let mut q = Uint256::zero();
        let mut rem = Uint256::zero();
        let mut i: usize = 256;
        proof {
            self.lemma_bounded();
            other.lemma_bounded();
            lemma_modulus_is_pow2();
            lemma_basic_div(a as int, modulus() as int);
            lemma_div_of0(b as int);
            lemma_small_mod(0, b);
        }
        while i > 0
            invariant
                i <= 256,
                b == other.value(),
                b != 0,
                b < modulus(),
                a == self.value(),
                a < modulus(),
                q.value() == (a / pow2(i as nat)) / b,
                rem.value() == (a / pow2(i as nat)) % b,
            decreases i,
        {
            let bit = self.shr(i - 1).low_bit();
            let ghost x = a / pow2(i as nat);
            let ghost y = a / pow2((i - 1) as nat);
            proof {
                lemma_pow2_unfold(i as nat);
                lemma_pow2_pos((i - 1) as nat);
                lemma_div_denominator(a as int, pow2((i - 1) as nat) as int, 2);
                assert(y == 2 * x + bit as nat);
                lemma_div_nonincreasing(a as int, pow2((i - 1) as nat) as int);
                lemma_div_nonincreasing(y as int, b as int);
            }
            proof {
                lemma_div_step(x, y, b, bit as nat);
            }
            let (q2, r2) = long_division_step(&q, &rem, bit, other);
            q = q2;
            rem = r2;
            i = i - 1;
        }
        proof {
            lemma2_to64();
            lemma_fundamental_div_mod_converse(a as int, 1, a as int, 0);
        }
        q
    }
}

/// One step of long division: appending a bit to the dividend doubles the
/// quotient and the remainder, with one subtraction where the remainder
/// reaches the divisor.
pub proof fn lemma_div_step(x: nat, y: nat, b: nat, bit: nat)
    requires
        b > 0,
        bit < 2,
        y == 2 * x + bit,
    ensures
        2 * (x % b) + bit < 2 * b,
        2 * (x / b) <= y,
        2 * (x % b) + bit >= b ==> y / b == 2 * (x / b) + 1 && y % b == 2 * (x % b) + bit - b,
        2 * (x % b) + bit < b ==> y / b == 2 * (x / b) && y % b == 2 * (x % b) + bit,
{
    let q = x / b;
    let r = x % b;
    lemma_fundamental_div_mod(x as int, b as int);
    lemma_mod_bound(x as int, b as int);
    let t = 2 * r + bit;
    assert(y == 2 * q * b + t) by (nonlinear_arith)
        requires
            y == 2 * x + bit,
            x == b * q + r,
            t == 2 * r + bit,
    ;
    assert(2 * q <= y) by (nonlinear_arith)
        requires
            y == 2 * q * b + t,
            b >= 1,
    ;
    if t >= b {
        assert(y == (2 * q + 1) * b + (t - b)) by (nonlinear_arith)
            requires
                y == 2 * q * b + t,
        ;
        lemma_fundamental_div_mod_converse(y as int, b as int, (2 * q + 1) as int, (t - b) as int);
    } else {
        assert(y == (2 * q) * b + t) by (nonlinear_arith)
            requires
                y == 2 * q * b + t,
        ;
        lemma_fundamental_div_mod_converse(y as int, b as int, (2 * q) as int, t as int);
    }
}

/// Appends `bit` to the partial dividend `2 * q * b + rem` and reduces.
fn long_division_step(q: &Uint256, rem: &Uint256, bit: u64, other: &Uint256) -> (r: (Uint256, Uint256))
    requires
        bit < 2,
        rem.value() < other.value(),
        2 * q.value() + 1 < modulus(),
    ensures
        2 * rem.value() + bit >= other.value() ==> r.0.value() == 2 * q.value() + 1
            && r.1.value() == 2 * rem.value() + bit - other.value(),
        2 * rem.value() + bit < other.value() ==> r.0.value() == 2 * q.value()
            && r.1.value() == 2 * rem.value() + bit,
{
    let top = Uint256([0, 0, 0, 0x8000_0000_0000_0000]);
    let one = Uint256::from_u64(1);
    let ghost b = other.value();
    proof {
        other.lemma_bounded();
    }
    let overflow = top.le(rem);
    let mut r2 = rem.wrapping_add(rem);
    let ghost m = modulus();
    let ghost t = 2 * rem.value() + bit as nat;
    proof {
        if overflow {
            lemma_mod_once(2 * rem.value(), m);
        } else {
            lemma_small_mod(2 * rem.value(), m);
        }
    }
    let ghost d = r2.value();
    if bit == 1 {
        r2 = r2.wrapping_add(&one);
        proof {
            lemma_small_mod(d + 1, m);
        }
    }
    assert(overflow ==> r2.value() + m == t);
    assert(!overflow ==> r2.value() == t);
    let q2 = q.wrapping_add(q);
    proof {
        lemma_small_mod(2 * q.value(), m);
    }
    if overflow || other.le(&r2) {
        let new_rem = r2.wrapping_sub(other);
        let new_q = q2.wrapping_add(&one);
        proof {
            if overflow {
                assert(r2.value() + m - b == t - b);
            } else {
                assert(r2.value() + m - b == (t - b) + m);
                lemma_mod_once((t - b + m) as nat, m);
            }
            lemma_small_mod((t - b) as nat, m);
            lemma_small_mod(q2.value() + 1, m);
        }
        (new_q, new_rem)
    } else {
        (q2, r2)
    }
}

/// A value in `[m, 2m)` reduces by one subtraction.
pub proof fn lemma_mod_once(x: nat, m: nat)
    requires
        m <= x < 2 * m,
    ensures
        x % m == x - m,
{
    lemma_fundamental_div_mod_converse(x as int, m as int, 1, x - m);
}

/// Word-wise sums with carries add up to the sum of the values.
pub proof fn lemma_carry_chain(
    a0: u64, a1: u64, a2: u64, a3: u64,
    b0: u64, b1: u64, b2: u64, b3: u64,
    s0: u64, s1: u64, s2: u64, s3: u64,
    c0: u64, c1: u64, c2: u64, c3: u64,
)
    requires
        s0 + 0x1_0000_0000_0000_0000 * c0 == a0 + b0,
        s1 + 0x1_0000_0000_0000_0000 * c1 == a1 + b1 + c0,
        s2 + 0x1_0000_0000_0000_0000 * c2 == a2 + b2 + c1,
        s3 + 0x1_0000_0000_0000_0000 * c3 == a3 + b3 + c2,
    ensures
        words_value(a0, a1, a2, a3) + words_value(b0, b1, b2, b3) == words_value(s0, s1, s2, s3)
            + modulus() * c3,
{
    let bb: int = 0x1_0000_0000_0000_0000;
    let x3 = a3 + b3 + c2;
    let x2 = a2 + b2 + c1;
    let x1 = a1 + b1 + c0;
    assert(words_value(a0, a1, a2, a3) + words_value(b0, b1, b2, b3) == (a0 + b0) + bb * ((a1 + b1) + bb * ((a2 + b2) + bb * (a3 + b3))));
    assert(modulus() == bb * bb * bb * bb);
    assert((a0 + b0) + bb * ((a1 + b1) + bb * ((a2 + b2) + bb * (a3 + b3))) == s0 + bb * (s1 + bb * (s2 + bb * s3)) + bb * bb * bb * bb * c3) by (nonlinear_arith)
        requires
            s0 + bb * c0 == a0 + b0,
            s1 + bb * c1 == a1 + b1 + c0,
            s2 + bb * c2 == a2 + b2 + c1,
            s3 + bb * c3 == a3 + b3 + c2,
    ;
}

/// `modulus()` is 2^256.
pub proof fn lemma_modulus_is_pow2()
    ensures
        modulus() == pow2(256),
{
    lemma2_to64_rest();
    lemma_pow2_adds(64, 64);
    lemma_pow2_adds(128, 64);
    lemma_pow2_adds(192, 64);
}

/// A value below 2^n needs at most n bits.
pub proof fn lemma_bit_length_bound(v: nat, n: nat)
    requires
        v < pow2(n),
    ensures
        bit_length(v) <= n,
    decreases n,
{
    if v > 0 {
        lemma_pow2_pos(0);
        if n == 0 {
            lemma2_to64();
        } else {
            lemma_pow2_unfold(n);
            lemma_bit_length_bound(v / 2, (n - 1) as nat);
        }
    }
}

/// A value is below 2^(its bit length).
pub proof fn lemma_below_bit_length(v: nat)
    ensures
        v < pow2(bit_length(v)),
    decreases v,
{
    if v == 0 {
        lemma2_to64();
    } else {
        lemma_below_bit_length(v / 2);
        lemma_pow2_unfold(bit_length(v));
    }
}

impl BitArray for Uint256 {
    open spec fn bits_value(&self) -> nat {
        self.value()
    }

    open spec fn width() -> nat {
        256
    }

    fn is_bit_set(&self, index: usize) -> (r: bool) {
        self.shr(index).low_bit() == 1
    }

    fn as_bit_slice(&self, start: usize, end: usize) -> (r: Uint256) {
        self.shr(start).mask(end - start)
    }

    fn mask(&self, n: usize) -> (r: Uint256) {
        let high = self.shr(n).shl(n);
        let ghost v = self.value();
        let ghost p = pow2(n as nat);
        proof {
            lemma_pow2_pos(n as nat);
            lemma_fundamental_div_mod(v as int, p as int);
            lemma_mod_bound(v as int, p as int);
            self.lemma_bounded();
            assert((v / p) * p <= v) by (nonlinear_arith)
                requires
                    v == p * (v / p) + v % p,
                    v % p >= 0,
            ;
            lemma_small_mod((v / p) * p, modulus());
        }
        let r = self.wrapping_sub(&high);
        proof {
            lemma_mod_add_multiples_vanish((v - (v / p) * p) as int, modulus() as int);
            lemma_small_mod((v % p) as nat, modulus());
            assert(v % p < modulus());
        }
        r
    }

    fn trailing_zeros(&self) -> (r: usize) {
        let mut cur = *self;
        let mut k: usize = 0;
        proof {
            lemma2_to64();
        }
        while k < 256 && cur.low_bit() == 0
            invariant
                k <= 256,
                cur.value() == self.value() / pow2(k as nat),
                forall|i: nat| i < k ==> !bit_of(self.value(), i),
            decreases 256 - k,
        {
            proof {
                lemma_pow2_unfold((k + 1) as nat);
                lemma_pow2_pos(k as nat);
                lemma_div_denominator(self.value() as int, pow2(k as nat) as int, 2);
                assert forall|i: nat| i < k + 1 implies !bit_of(self.value(), i) by {
                    if i == k {
                        assert(cur.value() % 2 == 0);
                    }
                };
            }
            cur = cur.shr_one();
            k = k + 1;
        }
        k
    }

    fn all_zeros_value() -> (r: Uint256) {
        Uint256::zero()
    }

    fn repr_one() -> (r: Uint256) {
        Uint256::from_u64(1)
    }
}

impl Uint256 {
    /// Wrapping product with a 32-bit factor; each word's carry goes into the next.
    pub fn multiply_by_u32(&self, k: u32) -> (r: Uint256)
        ensures
            r.value() == (self.value() * k as nat) % modulus(),
    {
        let (m0, c0) = mul_word(self.0[0], k, 0);
        let (m1, c1) = mul_word(self.0[1], k, c0);
        let (m2, c2) = mul_word(self.0[2], k, c1);
        let (m3, c3) = mul_word(self.0[3], k, c2);
        let r = Uint256([m0, m1, m2, m3]);
        proof {
            lemma_mul_chain(self.0@[0], self.0@[1], self.0@[2], self.0@[3], k, m0, m1, m2, m3, c0, c1, c2, c3);
            lemma_mod_multiples_vanish(c3 as int, r.value() as int, modulus() as int);
            lemma_small_mod(r.value(), modulus());
        }
        r
    }
}

/// Multiplies a word by `k` and adds a carry; returns the low word and the carry out.
fn mul_word(a: u64, k: u32, c: u64) -> (r: (u64, u64))
    requires
        c < 0x1_0000_0000,
    ensures
        r.0 as nat + 0x1_0000_0000_0000_0000 * r.1 as nat == a as nat * k as nat + c as nat,
        r.1 < 0x1_0000_0000,
{
    assert(a as nat * k as nat <= 0xffff_ffff_ffff_ffff * 0xffff_ffff) by (nonlinear_arith)
        requires
            a <= 0xffff_ffff_ffff_ffff,
            k <= 0xffff_ffff,
    ;
    let t: u128 = a as u128 * k as u128 + c as u128;
    ((t % 0x1_0000_0000_0000_0000) as u64, (t / 0x1_0000_0000_0000_0000) as u64)
}

/// Word-wise products with carries add up to the product of the value.
pub proof fn lemma_mul_chain(
    a0: u64, a1: u64, a2: u64, a3: u64, k: u32,
    m0: u64, m1: u64, m2: u64, m3: u64,
    c0: u64, c1: u64, c2: u64, c3: u64,
)
    requires
        m0 + 0x1_0000_0000_0000_0000 * c0 == a0 * k,
        m1 + 0x1_0000_0000_0000_0000 * c1 == a1 * k + c0,
        m2 + 0x1_0000_0000_0000_0000 * c2 == a2 * k + c1,
        m3 + 0x1_0000_0000_0000_0000 * c3 == a3 * k + c2,
    ensures
        words_value(a0, a1, a2, a3) * k == words_value(m0, m1, m2, m3) + modulus() * c3,
{
    let bb: int = 0x1_0000_0000_0000_0000;
    let p0 = a0 * k;
    let p1 = a1 * k;
    let p2 = a2 * k;
    let p3 = a3 * k;
    assert((a0 + bb * (a1 + bb * (a2 + bb * a3))) * k == p0 + bb * (p1 + bb * (p2 + bb * p3))) by (nonlinear_arith)
        requires
            p0 == a0 * k,
            p1 == a1 * k,
            p2 == a2 * k,
            p3 == a3 * k,
    ;
    assert(modulus() == bb * bb * bb * bb);
    assert(p0 + bb * (p1 + bb * (p2 + bb * p3)) == m0 + bb * (m1 + bb * (m2 + bb * m3)) + bb * bb * bb * bb * c3) by (nonlinear_arith)
        requires
            m0 + bb * c0 == p0,
            m1 + bb * c1 == p1 + c0,
            m2 + bb * c2 == p2 + c1,
            m3 + bb * c3 == p3 + c2,
    ;
}

/// Adds two words and a carry; returns the low word and the carry out.
fn add_word(a: u64, b: u64, c: u64) -> (r: (u64, u64))
    requires
        c <= 1,
    ensures
        r.0 as nat + 0x1_0000_0000_0000_0000 * r.1 as nat == a as nat + b as nat + c as nat,
        r.1 <= 1,
{
    let t: u128 = a as u128 + b as u128 + c as u128;
    ((t % 0x1_0000_0000_0000_0000) as u64, (t / 0x1_0000_0000_0000_0000) as u64)
}

fn not_word(a: u64) -> (r: u64)
    ensures
        r == u64::MAX - a,
{
    let r = !a;
    assert(!a == 0xffff_ffff_ffff_ffffu64 - a) by (bit_vector);
    r
}

/// `lo / 2` with the lowest bit of `hi` placed on top.
fn half_with(lo: u64, hi: u64) -> (r: u64)
    ensures
        r as nat == lo as nat / 2 + (hi as nat % 2) * 0x8000_0000_0000_0000,
{
    let r = (lo >> 1u64) | (hi << 63u64);
    assert((lo >> 1u64) | (hi << 63u64) == lo / 2 + (hi % 2) * 0x8000_0000_0000_0000u64)
        by (bit_vector);
    r
}

} // verus!
