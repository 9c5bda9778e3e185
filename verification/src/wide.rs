//! Signed integers of up to 256 bits, as four 64-bit limbs and a sign.
//!
//! The intersection-over-union test compares products of a 128-bit area and
//! a 64-bit threshold term; these exceed `i128`, so they are computed here.

use vstd::prelude::*;

verus! {

/// One limb's base, 2^64.
pub open spec fn base() -> int {
    0x1_0000_0000_0000_0000
}

/// The value of four limbs, least significant first.
pub open spec fn limbs_value(d0: u64, d1: u64, d2: u64, d3: u64) -> int {
    d0 + d1 * 0x1_0000_0000_0000_0000int + d2 * 0x1_0000_0000_0000_0000_0000_0000_0000_0000int
        + d3 * 0x1_0000_0000_0000_0000_0000_0000_0000_0000_0000_0000_0000_0000int
}

/// 2^128 and 2^192.
pub open spec fn base2() -> int {
    0x1_0000_0000_0000_0000_0000_0000_0000_0000int
}

pub open spec fn base3() -> int {
    0x1_0000_0000_0000_0000_0000_0000_0000_0000_0000_0000_0000_0000int
}

/// 2^256, one past the largest magnitude a `Wide` holds.
pub open spec fn wide_bound() -> int {
    0x1_0000_0000_0000_0000_0000_0000_0000_0000_0000_0000_0000_0000_0000_0000_0000_0000int
}

/// A signed integer with a magnitude below 2^256.
#[derive(Clone, Copy, Debug)]
pub struct Wide {
    pub neg: bool,
    pub d0: u64,
    pub d1: u64,
    pub d2: u64,
    pub d3: u64,
}

impl Wide {
    pub closed spec fn mag(self) -> int {
        limbs_value(self.d0, self.d1, self.d2, self.d3)
    }

    pub closed spec fn val(self) -> int {
        if self.neg {
            -self.mag()
        } else {
            self.mag()
        }
    }
}

/// Adds two magnitudes limb by limb.
fn mag_add(a: &Wide, b: &Wide) -> (r: (u64, u64, u64, u64))
    requires
        a.mag() + b.mag() < wide_bound(),
    ensures
        limbs_value(r.0, r.1, r.2, r.3) == a.mag() + b.mag(),
{
    let s0: u128 = a.d0 as u128 + b.d0 as u128;
    let (r0, c0): (u64, u128) = if s0 >= 0x1_0000_0000_0000_0000 {
        ((s0 - 0x1_0000_0000_0000_0000) as u64, 1)
    } else {
        (s0 as u64, 0)
    };
    let s1: u128 = a.d1 as u128 + b.d1 as u128 + c0;
    let (r1, c1): (u64, u128) = if s1 >= 0x1_0000_0000_0000_0000 {
        ((s1 - 0x1_0000_0000_0000_0000) as u64, 1)
    } else {
        (s1 as u64, 0)
    };
    let s2: u128 = a.d2 as u128 + b.d2 as u128 + c1;
    let (r2, c2): (u64, u128) = if s2 >= 0x1_0000_0000_0000_0000 {
        ((s2 - 0x1_0000_0000_0000_0000) as u64, 1)
    } else {
        (s2 as u64, 0)
    };
    let s3: u128 = a.d3 as u128 + b.d3 as u128 + c2;
    assert(s3 < base());
    (r0, r1, r2, s3 as u64)
}

/// Subtracts a smaller magnitude from a larger one.
fn mag_sub(a: &Wide, b: &Wide) -> (r: (u64, u64, u64, u64))
    requires
        a.mag() >= b.mag(),
    ensures
        limbs_value(r.0, r.1, r.2, r.3) == a.mag() - b.mag(),
{
    let (r0, w0): (u64, u64) = if a.d0 >= b.d0 {
        (a.d0 - b.d0, 0)
    } else {
        ((a.d0 as u128 + 0x1_0000_0000_0000_0000 - b.d0 as u128) as u64, 1)
    };
    let t1: u128 = b.d1 as u128 + w0 as u128;
    let (r1, w1): (u64, u64) = if a.d1 as u128 >= t1 {
        ((a.d1 as u128 - t1) as u64, 0)
    } else {
        ((a.d1 as u128 + 0x1_0000_0000_0000_0000 - t1) as u64, 1)
    };
    let t2: u128 = b.d2 as u128 + w1 as u128;
    let (r2, w2): (u64, u64) = if a.d2 as u128 >= t2 {
        ((a.d2 as u128 - t2) as u64, 0)
    } else {
        ((a.d2 as u128 + 0x1_0000_0000_0000_0000 - t2) as u64, 1)
    };
    let t3: u128 = b.d3 as u128 + w2 as u128;
    assert(a.d3 >= t3);
    (r0, r1, r2, (a.d3 as u128 - t3) as u64)
}

/// Whether one magnitude is below another.
fn mag_lt(a: &Wide, b: &Wide) -> (r: bool)
    ensures
        r == (a.mag() < b.mag()),
{
    if a.d3 != b.d3 {
        a.d3 < b.d3
    } else if a.d2 != b.d2 {
        a.d2 < b.d2
    } else if a.d1 != b.d1 {
        a.d1 < b.d1
    } else {
        a.d0 < b.d0
    }
}

proof fn lemma_limbs_times(a0: u64, a1: u64, a2: u64, a3: u64, m: u64, p0: int, p1: int, p2: int, p3: int)
    requires
        p0 == a0 * m,
        p1 == a1 * m,
        p2 == a2 * m,
        p3 == a3 * m,
    ensures
        limbs_value(a0, a1, a2, a3) * m == p0 + p1 * base() + p2 * base2() + p3 * base3(),
        0 <= p0 < base2() - base(),
        0 <= p1 < base2() - base(),
        0 <= p2 < base2() - base(),
        0 <= p3 < base2() - base(),
{
    assert(limbs_value(a0, a1, a2, a3) * m == p0 + p1 * base() + p2 * base2() + p3 * base3())
        by (nonlinear_arith)
        requires
            p0 == a0 * m,
            p1 == a1 * m,
            p2 == a2 * m,
            p3 == a3 * m,
            limbs_value(a0, a1, a2, a3) == a0 + a1 * base() + a2 * base2() + a3 * base3(),
    ;
    lemma_limb_product(a0, m);
    lemma_limb_product(a1, m);
    lemma_limb_product(a2, m);
    lemma_limb_product(a3, m);
    assert(0 <= a0 * m);
    assert(0 <= a1 * m);
    assert(0 <= a2 * m);
    assert(0 <= a3 * m);
}

proof fn lemma_limb_product(x: u64, y: u64)
    ensures
        0 <= x * y < base2() - base(),
{
    assert(0 <= x * y <= 0xffff_ffff_ffff_ffff * 0xffff_ffff_ffff_ffff) by (nonlinear_arith)
        requires
            0 <= x <= 0xffff_ffff_ffff_ffff,
            0 <= y <= 0xffff_ffff_ffff_ffff,
    ;
}

/// Splits a number below 2^128 into its low limb and the carry above it.
fn split_limb(t: u128) -> (r: (u64, u128))
    ensures
        t == r.0 + r.1 * base(),
        r.1 == t as int / base(),
{
    let hi: u128 = t / 0x1_0000_0000_0000_0000;
    let lo: u64 = (t % 0x1_0000_0000_0000_0000) as u64;
    (lo, hi)
}

/// Multiplies a magnitude by a 64-bit factor.
fn mag_mul(a: &Wide, m: u64) -> (r: (u64, u64, u64, u64))
    requires
        a.mag() * m < wide_bound(),
    ensures
        limbs_value(r.0, r.1, r.2, r.3) == a.mag() * m,
{
    proof {
        lemma_limb_product(a.d0, m);
        lemma_limb_product(a.d1, m);
        lemma_limb_product(a.d2, m);
        lemma_limb_product(a.d3, m);
    }
    let p0: u128 = a.d0 as u128 * m as u128;
    let p1: u128 = a.d1 as u128 * m as u128;
    let p2: u128 = a.d2 as u128 * m as u128;
    let p3: u128 = a.d3 as u128 * m as u128;
    proof {
        lemma_limbs_times(a.d0, a.d1, a.d2, a.d3, m, p0 as int, p1 as int, p2 as int, p3 as int);
    }
    let (r0, c0) = split_limb(p0);
    let (r1, c1) = split_limb(p1 + c0);
    let (r2, c2) = split_limb(p2 + c1);
    let (r3, c3) = split_limb(p3 + c2);
    assert(c3 == 0);
    (r0, r1, r2, r3)
}

fn make(neg: bool, r: (u64, u64, u64, u64)) -> (w: Wide)
    ensures
        w.mag() == limbs_value(r.0, r.1, r.2, r.3),
        w.neg == neg,
{
    Wide { neg, d0: r.0, d1: r.1, d2: r.2, d3: r.3 }
}

/// The absolute value of an integer.
pub open spec fn abs(x: int) -> int {
    if x < 0 {
        -x
    } else {
        x
    }
}

impl Wide {
    /// The number `x`.
    pub fn from_u128(x: u128) -> (w: Wide)
        ensures
            w.val() == x,
            w.mag() == abs(w.val()),
    {
        let (lo, hi) = split_limb(x);
        Wide { neg: false, d0: lo, d1: hi as u64, d2: 0, d3: 0 }
    }

    /// The number `x`.
    pub fn from_i128(x: i128) -> (w: Wide)
        ensures
            w.val() == x,
            w.mag() == abs(w.val()),
    {
        if x < 0 {
            let m: u128 = (-(x + 1)) as u128 + 1;
            let w = Wide::from_u128(m);
            Wide { neg: true, ..w }
        } else {
            Wide::from_u128(x as u128)
        }
    }

    /// The number `-self`.
    pub fn neg(&self) -> (w: Wide)
        ensures
            w.val() == -self.val(),
            w.mag() == abs(w.val()),
    {
        Wide { neg: !self.neg, ..*self }
    }

    /// The sum of two numbers.
    pub fn add(&self, other: &Wide) -> (w: Wide)
        requires
            self.mag() + other.mag() < wide_bound(),
        ensures
            w.val() == self.val() + other.val(),
            w.mag() == abs(w.val()),
    {
        if self.neg == other.neg {
            make(self.neg, mag_add(self, other))
        } else if mag_lt(self, other) {
            make(other.neg, mag_sub(other, self))
        } else {
            make(self.neg, mag_sub(self, other))
        }
    }

    /// The difference of two numbers.
    pub fn sub(&self, other: &Wide) -> (w: Wide)
        requires
            self.mag() + other.mag() < wide_bound(),
        ensures
            w.val() == self.val() - other.val(),
            w.mag() == abs(w.val()),
    {
        self.add(&other.neg())
    }

    /// The product of a number and an unsigned 64-bit factor.
    pub fn mul_u64(&self, m: u64) -> (w: Wide)
        requires
            self.mag() * m < wide_bound(),
        ensures
            w.val() == self.val() * m,
            w.mag() == abs(w.val()),
    {
        let r = mag_mul(self, m);
        let w = make(self.neg, r);
        assert(w.val() == self.val() * m) by (nonlinear_arith)
            requires
                w.mag() == self.mag() * m,
                w.neg == self.neg,
                w.val() == (if w.neg { -w.mag() } else { w.mag() }),
                self.val() == (if self.neg { -self.mag() } else { self.mag() }),
        ;
        w
    }

    /// The product of a number and a signed 64-bit factor.
    pub fn mul_i64(&self, m: i64) -> (w: Wide)
        requires
            self.mag() * (if m < 0 { -m } else { m as int }) < wide_bound(),
        ensures
            w.val() == self.val() * m,
            w.mag() == abs(w.val()),
    {
        if m < 0 {
            let k: u64 = (-(m + 1)) as u64 + 1;
            let w = self.mul_u64(k);
            let r = w.neg();
            assert(r.val() == self.val() * m) by (nonlinear_arith)
                requires
                    r.val() == -(self.val() * k),
                    k == -m,
            ;
            r
        } else {
            self.mul_u64(m as u64)
        }
    }

    /// Whether the number is below zero.
    pub fn is_negative(&self) -> (b: bool)
        ensures
            b == (self.val() < 0),
    {
        self.neg && !(self.d0 == 0 && self.d1 == 0 && self.d2 == 0 && self.d3 == 0)
    }

    /// Whether the number is above zero.
    pub fn is_positive(&self) -> (b: bool)
        ensures
            b == (self.val() > 0),
    {
        !self.neg && !(self.d0 == 0 && self.d1 == 0 && self.d2 == 0 && self.d3 == 0)
    }
}

} // verus!
