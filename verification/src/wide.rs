//! Whole numbers below `2^256`, for sums of fractions whose common
//! denominator does not fit a machine integer.

use vstd::prelude::*;

verus! {

/// The base of the digits: `2^64`.
pub const BASE: u128 = 0x1_0000_0000_0000_0000;

/// The first number that four digits cannot hold: `2^256`.
pub open spec fn limit() -> int {
    0x1_0000_0000_0000_0000_0000_0000_0000_0000_0000_0000_0000_0000_0000_0000_0000_0000int
}

/// A number below `2^256`, as four digits in base `2^64`, lowest first.
pub struct Wide {
    d0: u64,
    d1: u64,
    d2: u64,
    d3: u64,
}

/// The number with the given digits, lowest first.
pub open spec fn number(d0: int, d1: int, d2: int, d3: int) -> int {
    d0 + d1 * 0x1_0000_0000_0000_0000int + d2 * 0x1_0000_0000_0000_0000_0000_0000_0000_0000int
        + d3 * 0x1_0000_0000_0000_0000_0000_0000_0000_0000_0000_0000_0000_0000int
}

impl View for Wide {
    type V = int;

    closed spec fn view(&self) -> int {
        number(self.d0 as int, self.d1 as int, self.d2 as int, self.d3 as int)
    }
}

impl Wide {
    /// Every number held lies between 0 and `2^256`.
    pub proof fn lemma_range(&self)
        ensures
            0 <= self@ < limit(),
    {
    }

    /// The number `x`.
    pub fn from_u64(x: u64) -> (r: Wide)
        ensures
            r@ == x,
    {
        Wide { d0: x, d1: 0, d2: 0, d3: 0 }
    }

    /// The product of this number and `k`, if it is below `2^256`.
    pub fn times(&self, k: u64) -> (r: Option<Wide>)
        ensures
            self@ * k < limit() ==> r is Some && r->0@ == self@ * k,
            self@ * k >= limit() ==> r is None,
    {
        proof {
            lemma_digit_product(self.d0, k);
            lemma_digit_product(self.d1, k);
            lemma_digit_product(self.d2, k);
            lemma_digit_product(self.d3, k);
        }
        let t0: u128 = (self.d0 as u128) * (k as u128);
        let t1: u128 = (self.d1 as u128) * (k as u128) + t0 / BASE;
        let t2: u128 = (self.d2 as u128) * (k as u128) + t1 / BASE;
        let t3: u128 = (self.d3 as u128) * (k as u128) + t2 / BASE;
        proof {
            let p0 = self.d0 as int * k as int;
            let p1 = self.d1 as int * k as int;
            let p2 = self.d2 as int * k as int;
            let p3 = self.d3 as int * k as int;
            lemma_number_times(self.d0 as int, self.d1 as int, self.d2 as int, self.d3 as int, k as int);
            assert(self@ * k == number(p0, p1, p2, p3));
            assert(number(p0, p1, p2, p3) == number(
                (t0 % BASE) as int,
                (t1 % BASE) as int,
                (t2 % BASE) as int,
                (t3 % BASE) as int,
            ) + (t3 / BASE) * limit());
        }
        if t3 / BASE > 0 {
            None
        } else {
            Some(
                Wide {
                    d0: (t0 % BASE) as u64,
                    d1: (t1 % BASE) as u64,
                    d2: (t2 % BASE) as u64,
                    d3: (t3 % BASE) as u64,
                },
            )
        }
    }

    /// The sum of this number and `other`, if it is below `2^256`.
    pub fn plus(&self, other: &Wide) -> (r: Option<Wide>)
        ensures
            self@ + other@ < limit() ==> r is Some && r->0@ == self@ + other@,
            self@ + other@ >= limit() ==> r is None,
    {
        let t0: u128 = (self.d0 as u128) + (other.d0 as u128);
        let t1: u128 = (self.d1 as u128) + (other.d1 as u128) + t0 / BASE;
        let t2: u128 = (self.d2 as u128) + (other.d2 as u128) + t1 / BASE;
        let t3: u128 = (self.d3 as u128) + (other.d3 as u128) + t2 / BASE;
        proof {
            assert(self@ + other@ == number(
                (t0 % BASE) as int,
                (t1 % BASE) as int,
                (t2 % BASE) as int,
                (t3 % BASE) as int,
            ) + (t3 / BASE) * limit());
        }
        if t3 / BASE > 0 {
            None
        } else {
            Some(
                Wide {
                    d0: (t0 % BASE) as u64,
                    d1: (t1 % BASE) as u64,
                    d2: (t2 % BASE) as u64,
                    d3: (t3 % BASE) as u64,
                },
            )
        }
    }

    /// Whether this number is larger than `other`.
    pub fn exceeds(&self, other: &Wide) -> (r: bool)
        ensures
            r == (self@ > other@),
    {
        if self.d3 != other.d3 {
            self.d3 > other.d3
        } else if self.d2 != other.d2 {
            self.d2 > other.d2
        } else if self.d1 != other.d1 {
            self.d1 > other.d1
        } else {
            self.d0 > other.d0
        }
    }

    /// Whether this number is 0.
    pub fn is_zero(&self) -> (r: bool)
        ensures
            r == (self@ == 0),
    {
        self.d0 == 0 && self.d1 == 0 && self.d2 == 0 && self.d3 == 0
    }
}

/// The product of two digits and a carry fit two digits.
proof fn lemma_digit_product(d: u64, k: u64)
    ensures
        0 <= d as int * k as int <= 0xFFFF_FFFF_FFFF_FFFE_0000_0000_0000_0001,
{
    let x = d as int;
    let y = k as int;
    assert(0 <= x * y <= 0xFFFF_FFFF_FFFF_FFFF * 0xFFFF_FFFF_FFFF_FFFF) by (nonlinear_arith)
        requires
            0 <= x <= 0xFFFF_FFFF_FFFF_FFFF,
            0 <= y <= 0xFFFF_FFFF_FFFF_FFFF,
    ;
    assert(0xFFFF_FFFF_FFFF_FFFFint * 0xFFFF_FFFF_FFFF_FFFFint
        == 0xFFFF_FFFF_FFFF_FFFE_0000_0000_0000_0001int);
}

/// A number times `k` is the number of its digits times `k`.
proof fn lemma_number_times(d0: int, d1: int, d2: int, d3: int, k: int)
    ensures
        number(d0, d1, d2, d3) * k == number(d0 * k, d1 * k, d2 * k, d3 * k),
{
    lemma_distribute(
        d0,
        d1,
        d2,
        d3,
        0x1_0000_0000_0000_0000int,
        0x1_0000_0000_0000_0000_0000_0000_0000_0000int,
        0x1_0000_0000_0000_0000_0000_0000_0000_0000_0000_0000_0000_0000int,
        k,
    );
}

/// Multiplication distributes over a sum of four weighted terms.
proof fn lemma_distribute(d0: int, d1: int, d2: int, d3: int, b1: int, b2: int, b3: int, k: int)
    ensures
        (d0 + d1 * b1 + d2 * b2 + d3 * b3) * k == d0 * k + (d1 * k) * b1 + (d2 * k) * b2 + (d3 * k)
            * b3,
{
    let t1 = d1 * b1;
    let t2 = d2 * b2;
    let t3 = d3 * b3;
    assert((d0 + t1 + t2 + t3) * k == d0 * k + t1 * k + t2 * k + t3 * k) by (nonlinear_arith);
    assert((d1 * b1) * k == (d1 * k) * b1) by (nonlinear_arith);
    assert((d2 * b2) * k == (d2 * k) * b2) by (nonlinear_arith);
    assert((d3 * b3) * k == (d3 * k) * b3) by (nonlinear_arith);
}

} // verus!
