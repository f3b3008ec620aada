use vstd::prelude::*;

verus! {

/// A pair of independent 64-bit words, mixed lane-wise by the permutation.
///
/// The two lanes stand side by side in a block: word `2*i` is lane 0 and word
/// `2*i + 1` is lane 1 of octword `i`.
#[derive(Clone, Copy, Debug, PartialEq, Eq, Structural)]
#[allow(non_camel_case_types)]
pub struct u64x2(pub u64, pub u64);

/// Right rotation of a 64-bit word by `n` bits, `0 < n < 64`.
pub open spec fn rotr64(x: u64, n: u32) -> u64 {
    (x >> (n as u64)) | (x << ((64 - n) as u64))
}

/// Low 32 bits of a word.
pub open spec fn lo32(x: u64) -> u64 {
    x & 0xffff_ffff
}

/// Right-rotate one 64-bit word.
pub fn rotr_u64(x: u64, n: u32) -> (r: u64)
    requires
        0 < n < 64,
    ensures
        r == rotr64(x, n),
{
    (x >> n) | (x << (64 - n))
}

impl u64x2 {
    /// Lane-wise product of the low 32-bit halves; each product fits in 64 bits.
    pub fn lower_mult(self, r: Self) -> (p: Self)
        ensures
            p.0 == lo32(self.0) * lo32(r.0),
            p.1 == lo32(self.1) * lo32(r.1),
    {
        proof {
            let a0 = self.0;
            let a1 = self.1;
            let b0 = r.0;
            let b1 = r.1;
            assert(lo32(a0) <= 0xffff_ffff && lo32(b0) <= 0xffff_ffff
                && lo32(a1) <= 0xffff_ffff && lo32(b1) <= 0xffff_ffff) by (bit_vector);
            assert(lo32(a0) * lo32(b0) < 0x1_0000_0000_0000_0000
                && lo32(a1) * lo32(b1) < 0x1_0000_0000_0000_0000) by (nonlinear_arith)
                requires
                    lo32(a0) <= 0xffff_ffff && lo32(b0) <= 0xffff_ffff
                        && lo32(a1) <= 0xffff_ffff && lo32(b1) <= 0xffff_ffff,
            ;
        }
        u64x2((self.0 & 0xffff_ffff) * (r.0 & 0xffff_ffff), (self.1 & 0xffff_ffff) * (r.1 & 0xffff_ffff))
    }

    /// Lane-wise right rotation by `n` bits.
    pub fn rotate_right(self, n: u32) -> (r: Self)
        requires
            0 < n < 64,
        ensures
            r.0 == rotr64(self.0, n),
            r.1 == rotr64(self.1, n),
    {
        u64x2(rotr_u64(self.0, n), rotr_u64(self.1, n))
    }

    /// The diagonalization shuffle: `(v4,v5) x (v6,v7) -> ((v7,v4),(v5,v6))`.
    pub fn cross_swap(self, r: Self) -> (t: (Self, Self))
        ensures
            t.0 == (u64x2(r.1, self.0)),
            t.1 == (u64x2(self.1, r.0)),
    {
        (u64x2(r.1, self.0), u64x2(self.1, r.0))
    }
}

} // verus!
