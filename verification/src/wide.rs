//! 256-bit unsigned integers for the products of amounts and prices.

use vstd::prelude::*;
use primitive_types::U256;

verus! {

/// 2^64.
pub open spec fn pow64() -> int {
    0x1_0000_0000_0000_0000
}

/// 2^256.
pub open spec fn pow256() -> int {
    pow64() * pow64() * pow64() * pow64()
}

/// A 256-bit unsigned integer as four 64-bit words, least significant first.
#[derive(Clone, Copy, Debug)]
pub struct Wide {
    pub w0: u64,
    pub w1: u64,
    pub w2: u64,
    pub w3: u64,
}

impl View for Wide {
    type V = int;

    /// The number that the four words stand for.
    open spec fn view(&self) -> int {
        self.w0 as int + self.w1 as int * pow64() + self.w2 as int * (pow64() * pow64())
            + self.w3 as int * (pow64() * pow64() * pow64())
    }
}

impl Wide {
    /// The 256-bit form of a 64-bit number.
    pub fn from_u64(x: u64) -> (r: Wide)
        ensures
            r@ == x,
    {
        Wide { w0: x, w1: 0, w2: 0, w3: 0 }
    }

    /// The 256-bit form of a 128-bit number.
    pub fn from_u128(x: u128) -> (r: Wide)
        ensures
            r@ == x,
    {
        let lo: u64 = (x & 0xffff_ffff_ffff_ffff) as u64;
        let hi: u64 = (x >> 64) as u64;
        assert(x == (x & 0xffff_ffff_ffff_ffff) + (x >> 64) * 0x1_0000_0000_0000_0000) by (bit_vector);
        assert((x & 0xffff_ffff_ffff_ffff) <= 0xffff_ffff_ffff_ffff) by (bit_vector);
        assert((x >> 64) <= 0xffff_ffff_ffff_ffff) by (bit_vector);
        Wide { w0: lo, w1: hi, w2: 0, w3: 0 }
    }

    /// The number as 128 bits, if it fits.
    pub fn to_u128(&self) -> (r: Option<u128>)
        ensures
            match r {
                Some(v) => v == self@,
                None => self@ > u128::MAX,
            },
    {
        if self.w2 == 0 && self.w3 == 0 {
            let lo: u128 = self.w0 as u128;
            let hi: u128 = self.w1 as u128;
            assert(hi * 0x1_0000_0000_0000_0000 + lo <= u128::MAX) by (nonlinear_arith)
                requires
                    hi <= 0xffff_ffff_ffff_ffff,
                    lo <= 0xffff_ffff_ffff_ffff,
            ;
            Some(hi * 0x1_0000_0000_0000_0000 + lo)
        } else {
            proof {
                let p2: int = pow64() * pow64();
                assert(p2 == 0x1_0000_0000_0000_0000_0000_0000_0000_0000) by (nonlinear_arith)
                    requires
                        p2 == pow64() * pow64(),
                        pow64() == 0x1_0000_0000_0000_0000,
                ;
                if self.w2 != 0 {
                    assert(self.w2 as int * p2 >= p2) by (nonlinear_arith)
                        requires
                            self.w2 >= 1,
                            p2 > 0,
                    ;
                    assert(self.w3 as int * (pow64() * pow64() * pow64()) >= 0) by (nonlinear_arith)
                        requires
                            self.w3 >= 0,
                            pow64() > 0,
                    ;
                } else {
                    assert(self.w3 as int * (pow64() * pow64() * pow64()) >= p2) by (nonlinear_arith)
                        requires
                            self.w3 >= 1,
                            p2 == pow64() * pow64(),
                            pow64() >= 1,
                    ;
                }
                assert(self.w1 as int * pow64() >= 0) by (nonlinear_arith)
                    requires
                        self.w1 >= 0,
                        pow64() > 0,
                ;
            }
            None
        }
    }
}

/// The product of two 256-bit numbers, by `U256`'s `*`, which stops the
/// program when the product does not fit in 256 bits. The contract claims that
/// for a product that fits the result is that product.
#[verifier::external_body]
pub(crate) fn wide_mul(a: Wide, b: Wide) -> (r: Wide)
    requires
        a@ * b@ < pow256(),
    ensures
        r@ == a@ * b@,
{
    let U256(w) = U256([a.w0, a.w1, a.w2, a.w3]) * U256([b.w0, b.w1, b.w2, b.w3]);
    Wide { w0: w[0], w1: w[1], w2: w[2], w3: w[3] }
}

/// The quotient of two 256-bit numbers, by `U256`'s `/`, which stops the
/// program on a zero divisor. The contract claims that for a divisor other
/// than zero the result is the quotient rounded down.
#[verifier::external_body]
pub(crate) fn wide_div(a: Wide, b: Wide) -> (r: Wide)
    requires
        b@ != 0,
    ensures
        r@ == a@ / b@,
{
    let U256(w) = U256([a.w0, a.w1, a.w2, a.w3]) / U256([b.w0, b.w1, b.w2, b.w3]);
    Wide { w0: w[0], w1: w[1], w2: w[2], w3: w[3] }
}

} // verus!
