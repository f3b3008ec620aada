use crate::block::{xor_words, Block};
use crate::octword::{rotr64, rotr_u64};
use vstd::prelude::*;

verus! {

/// `2 * lo32(a) * lo32(b) mod 2^64`: the multiplicative term of the Argon2
/// variant of the BLAKE2b mixing function.
pub open spec fn lower_mult2(a: u64, b: u64) -> u64 {
    (a & 0xffff_ffff).wrapping_mul(b & 0xffff_ffff).wrapping_mul(2)
}

/// One Argon2 mixing step `GB(a, b, c, d)`: BLAKE2b's quarter round with the
/// addition replaced by `x + y + 2 * lo32(x) * lo32(y)`, all modulo `2^64`.
#[verifier::opaque]
pub open spec fn gb_mix(a: u64, b: u64, c: u64, d: u64) -> (u64, u64, u64, u64) {
    let a1 = a.wrapping_add(b).wrapping_add(lower_mult2(a, b));
    let d1 = rotr64(d ^ a1, 32);
    let c1 = c.wrapping_add(d1).wrapping_add(lower_mult2(c, d1));
    let b1 = rotr64(b ^ c1, 24);
    let a2 = a1.wrapping_add(b1).wrapping_add(lower_mult2(a1, b1));
    let d2 = rotr64(d1 ^ a2, 16);
    let c2 = c1.wrapping_add(d2).wrapping_add(lower_mult2(c1, d2));
    let b2 = rotr64(b1 ^ c2, 63);
    (a2, b2, c2, d2)
}

/// The permutation P over sixteen words: GB down the four columns of the 4x4
/// arrangement, then GB down the four diagonals.
pub open spec fn p_perm(v: Seq<u64>) -> Seq<u64> {
    let c0 = gb_mix(v[0], v[4], v[8], v[12]);
    let c1 = gb_mix(v[1], v[5], v[9], v[13]);
    let c2 = gb_mix(v[2], v[6], v[10], v[14]);
    let c3 = gb_mix(v[3], v[7], v[11], v[15]);
    let d0 = gb_mix(c0.0, c1.1, c2.2, c3.3);
    let d1 = gb_mix(c1.0, c2.1, c3.2, c0.3);
    let d2 = gb_mix(c2.0, c3.1, c0.2, c1.3);
    let d3 = gb_mix(c3.0, c0.1, c1.2, c2.3);
    seq![
        d0.0, d1.0, d2.0, d3.0,
        d3.1, d0.1, d1.1, d2.1,
        d2.2, d3.2, d0.2, d1.2,
        d1.3, d2.3, d3.3, d0.3,
    ]
}

/// The sixteen words of row `row` of a block (an 8x16 matrix of words).
pub open spec fn row_words(s: Seq<u64>, row: int) -> Seq<u64> {
    Seq::new(16, |i: int| s[16 * row + i])
}

/// Block contents after applying P to row `row`.
pub open spec fn spec_p_row(s: Seq<u64>, row: int) -> Seq<u64> {
    Seq::new(
        s.len(),
        |i: int|
            if 16 * row <= i < 16 * row + 16 {
                p_perm(row_words(s, row))[i - 16 * row]
            } else {
                s[i]
            },
    )
}

/// The sixteen words of column pair `col`: words `16*k + 2*col` and
/// `16*k + 2*col + 1` for each of the eight rows `k`.
pub open spec fn col_words(s: Seq<u64>, col: int) -> Seq<u64> {
    Seq::new(16, |i: int| s[16 * (i / 2) + 2 * col + i % 2])
}

/// Block contents after applying P to column pair `col`.
pub open spec fn spec_p_col(s: Seq<u64>, col: int) -> Seq<u64> {
    Seq::new(
        s.len(),
        |i: int|
            if (i % 16) / 2 == col {
                p_perm(col_words(s, col))[2 * (i / 16) + i % 2]
            } else {
                s[i]
            },
    )
}

/// Block contents after applying P to rows `0..n`.
pub open spec fn spec_rows(s: Seq<u64>, n: nat) -> Seq<u64>
    decreases n,
{
    if n == 0 {
        s
    } else {
        spec_p_row(spec_rows(s, (n - 1) as nat), n - 1)
    }
}

/// Block contents after applying P to column pairs `0..n`.
pub open spec fn spec_cols(s: Seq<u64>, n: nat) -> Seq<u64>
    decreases n,
{
    if n == 0 {
        s
    } else {
        spec_p_col(spec_cols(s, (n - 1) as nat), n - 1)
    }
}

/// The full row-and-column P sweep over a block.
pub open spec fn spec_perm(s: Seq<u64>) -> Seq<u64> {
    spec_cols(spec_rows(s, 8), 8)
}

/// The Argon2 compression function `G`: with `x = l XOR r`, the result is
/// `perm(x) XOR x`.
pub open spec fn spec_g(l: Seq<u64>, r: Seq<u64>) -> Seq<u64> {
    let x = xor_words(l, r);
    xor_words(spec_perm(x), x)
}

/// The double compression `G2`, `G(0, G(0, s))`, used only for the
/// data-independent index stream.
pub open spec fn spec_g2(s: Seq<u64>) -> Seq<u64> {
    let t = xor_words(spec_perm(s), s);
    xor_words(spec_perm(t), t)
}

/// `2 * lo32(a) * lo32(b) mod 2^64`.
pub fn lower_mult(a: u64, b: u64) -> (r: u64)
    ensures
        r == lower_mult2(a, b),
{
    (a & 0xffff_ffff).wrapping_mul(b & 0xffff_ffff).wrapping_mul(2)
}

/// One Argon2 mixing step.
pub fn gb(a: u64, b: u64, c: u64, d: u64) -> (r: (u64, u64, u64, u64))
    ensures
        r == gb_mix(a, b, c, d),
{
    proof {
        reveal(gb_mix);
    }
    let a = a.wrapping_add(b).wrapping_add(lower_mult(a, b));
    let d = rotr_u64(d ^ a, 32);
    let c = c.wrapping_add(d).wrapping_add(lower_mult(c, d));
    let b = rotr_u64(b ^ c, 24);
    let a = a.wrapping_add(b).wrapping_add(lower_mult(a, b));
    let d = rotr_u64(d ^ a, 16);
    let c = c.wrapping_add(d).wrapping_add(lower_mult(c, d));
    let b = rotr_u64(b ^ c, 63);
    (a, b, c, d)
}

/// Apply P to row `row` of the block, in place.
#[verifier::rlimit(100)]
pub fn p_row(row: usize, b: &mut Block)
    requires
        old(b).wf(),
        row < 8,
    ensures
        final(b).wf(),
        final(b)@ == spec_p_row(old(b)@, row as int),
{
    let base = 16 * row;
    let v0 = b.get(base);
    let v1 = b.get(base + 1);
    let v2 = b.get(base + 2);
    let v3 = b.get(base + 3);
    let v4 = b.get(base + 4);
    let v5 = b.get(base + 5);
    let v6 = b.get(base + 6);
    let v7 = b.get(base + 7);
    let v8 = b.get(base + 8);
    let v9 = b.get(base + 9);
    let v10 = b.get(base + 10);
    let v11 = b.get(base + 11);
    let v12 = b.get(base + 12);
    let v13 = b.get(base + 13);
    let v14 = b.get(base + 14);
    let v15 = b.get(base + 15);
    proof {
        assert(row_words(old(b)@, row as int) =~= seq![
            v0, v1, v2, v3, v4, v5, v6, v7, v8, v9, v10, v11, v12, v13, v14, v15,
        ]);
    }
    let c0 = gb(v0, v4, v8, v12);
    let c1 = gb(v1, v5, v9, v13);
    let c2 = gb(v2, v6, v10, v14);
    let c3 = gb(v3, v7, v11, v15);
    let d0 = gb(c0.0, c1.1, c2.2, c3.3);
    let d1 = gb(c1.0, c2.1, c3.2, c0.3);
    let d2 = gb(c2.0, c3.1, c0.2, c1.3);
    let d3 = gb(c3.0, c0.1, c1.2, c2.3);
    b.set(base, d0.0);
    b.set(base + 1, d1.0);
    b.set(base + 2, d2.0);
    b.set(base + 3, d3.0);
    b.set(base + 4, d3.1);
    b.set(base + 5, d0.1);
    b.set(base + 6, d1.1);
    b.set(base + 7, d2.1);
    b.set(base + 8, d2.2);
    b.set(base + 9, d3.2);
    b.set(base + 10, d0.2);
    b.set(base + 11, d1.2);
    b.set(base + 12, d1.3);
    b.set(base + 13, d2.3);
    b.set(base + 14, d3.3);
    b.set(base + 15, d0.3);
    proof {
        let rw = row_words(old(b)@, row as int);
        assert(p_perm(rw) =~= seq![
            d0.0, d1.0, d2.0, d3.0,
            d3.1, d0.1, d1.1, d2.1,
            d2.2, d3.2, d0.2, d1.2,
            d1.3, d2.3, d3.3, d0.3,
        ]);
        assert(b@ =~= spec_p_row(old(b)@, row as int));
    }
}

/// Apply P to column pair `col` of the block, in place.
#[verifier::rlimit(100)]
pub fn p_col(col: usize, b: &mut Block)
    requires
        old(b).wf(),
        col < 8,
    ensures
        final(b).wf(),
        final(b)@ == spec_p_col(old(b)@, col as int),
{
    let base = 2 * col;
    let v0 = b.get(base);
    let v1 = b.get(base + 1);
    let v2 = b.get(base + 16);
    let v3 = b.get(base + 17);
    let v4 = b.get(base + 32);
    let v5 = b.get(base + 33);
    let v6 = b.get(base + 48);
    let v7 = b.get(base + 49);
    let v8 = b.get(base + 64);
    let v9 = b.get(base + 65);
    let v10 = b.get(base + 80);
    let v11 = b.get(base + 81);
    let v12 = b.get(base + 96);
    let v13 = b.get(base + 97);
    let v14 = b.get(base + 112);
    let v15 = b.get(base + 113);
    proof {
        assert(col_words(old(b)@, col as int) =~= seq![
            v0, v1, v2, v3, v4, v5, v6, v7, v8, v9, v10, v11, v12, v13, v14, v15,
        ]);
    }
    let c0 = gb(v0, v4, v8, v12);
    let c1 = gb(v1, v5, v9, v13);
    let c2 = gb(v2, v6, v10, v14);
    let c3 = gb(v3, v7, v11, v15);
    let d0 = gb(c0.0, c1.1, c2.2, c3.3);
    let d1 = gb(c1.0, c2.1, c3.2, c0.3);
    let d2 = gb(c2.0, c3.1, c0.2, c1.3);
    let d3 = gb(c3.0, c0.1, c1.2, c2.3);
    b.set(base, d0.0);
    b.set(base + 1, d1.0);
    b.set(base + 16, d2.0);
    b.set(base + 17, d3.0);
    b.set(base + 32, d3.1);
    b.set(base + 33, d0.1);
    b.set(base + 48, d1.1);
    b.set(base + 49, d2.1);
    b.set(base + 64, d2.2);
    b.set(base + 65, d3.2);
    b.set(base + 80, d0.2);
    b.set(base + 81, d1.2);
    b.set(base + 96, d1.3);
    b.set(base + 97, d2.3);
    b.set(base + 112, d3.3);
    b.set(base + 113, d0.3);
    proof {
        let cw = col_words(old(b)@, col as int);
        assert(p_perm(cw) =~= seq![
            d0.0, d1.0, d2.0, d3.0,
            d3.1, d0.1, d1.1, d2.1,
            d2.2, d3.2, d0.2, d1.2,
            d1.3, d2.3, d3.3, d0.3,
        ]);
        assert(b@ =~= spec_p_col(old(b)@, col as int));
    }
}

/// The full row-and-column P sweep, in place.
fn perm_block(b: &mut Block)
    requires
        old(b).wf(),
    ensures
        final(b).wf(),
        final(b)@ == spec_perm(old(b)@),
{
    let mut row: usize = 0;
    while row < 8
        invariant
            b.wf(),
            row <= 8,
            b@ == spec_rows(old(b)@, row as nat),
        decreases 8 - row,
    {
        p_row(row, b);
        row = row + 1;
    }
    let mut col: usize = 0;
    while col < 8
        invariant
            b.wf(),
            col <= 8,
            b@ == spec_cols(spec_rows(old(b)@, 8), col as nat),
        decreases 8 - col,
    {
        p_col(col, b);
        col = col + 1;
    }
}

/// The Argon2 compression `G(dest, l, r)`: `dest` receives
/// `perm(l XOR r) XOR (l XOR r)`.
pub fn g(dest: &mut Block, lhs: &Block, rhs: &Block)
    requires
        old(dest).wf(),
        lhs.wf(),
        rhs.wf(),
    ensures
        final(dest).wf(),
        final(dest)@ == spec_g(lhs@, rhs@),
{
    let mut x = lhs.duplicate();
    x.xor_with(rhs);
    let mut d = x.duplicate();
    perm_block(&mut d);
    d.xor_with(&x);
    *dest = d;
}

/// The double compression `G2(dest, src)`: `dest` receives `G(0, G(0, src))`.
pub fn g_two(dest: &mut Block, src: &Block)
    requires
        old(dest).wf(),
        src.wf(),
    ensures
        final(dest).wf(),
        final(dest)@ == spec_g2(src@),
{
    let mut d = src.duplicate();
    perm_block(&mut d);
    d.xor_with(src);
    let t = d.duplicate();
    perm_block(&mut d);
    d.xor_with(&t);
    *dest = d;
}

} // verus!
