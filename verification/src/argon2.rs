use crate::b2::{blake2b, blake2b_of};
use vstd::arithmetic::div_mod::{
    lemma_div_is_ordered, lemma_div_multiples_vanish, lemma_div_pos_is_pos,
    lemma_fundamental_div_mod, lemma_fundamental_div_mod_converse,
    lemma_mod_division_less_than_divisor, lemma_multiply_divide_lt, lemma_small_mod,
};
use crate::block::{bi, bytes_to_words, words_to_bytes, xor_column_words, xor_words, zero, zero_words, Block, Matrix, BLOCK_BYTES, BLOCK_U64S};
use crate::compress::{g, g_two, spec_g, spec_g2};
use vstd::arithmetic::mul::lemma_mul_strict_inequality;
use vstd::arithmetic::power2::lemma2_to64;
use vstd::bits::lemma_u64_shr_is_div;
use vstd::bytes::*;
use vstd::prelude::*;
use vstd::string::StringSliceAdditionalSpecFns;

verus! {

/// The two data-dependence flavours of Argon2 (version 0x10).
#[derive(Clone, Copy, Debug, PartialEq, Eq, Structural)]
pub enum Variant {
    Argon2d,
    Argon2i,
}

/// Numeric code of a variant, as hashed into H0.
pub open spec fn spec_variant_code(v: Variant) -> u32 {
    match v {
        Variant::Argon2d => 0,
        Variant::Argon2i => 1,
    }
}

/// Numeric code of a variant, as hashed into H0.
pub fn variant_code(v: Variant) -> (c: u32)
    ensures
        c == spec_variant_code(v),
{
    match v {
        Variant::Argon2d => 0,
        Variant::Argon2i => 1,
    }
}

/// Why a parameter set was rejected.
#[derive(Clone, Copy, Debug, PartialEq, Eq, Structural)]
pub enum ParamErr {
    /// Fewer than one pass was requested.
    TooFewPasses,
    /// Fewer than one lane was requested.
    TooFewLanes,
    /// Less memory than the minimum (8 KiB per lane); holds that minimum.
    MinKiB(u64),
}

/// The Argon2 protocol version this library implements.
pub const ARGON2_VERSION: u32 = 0x10;

const DEF_B2HASH_LEN: usize = 64;

/// Default pass count of the convenience constructors.
pub const DEF_PASSES: u32 = 3;

/// Default lane count of the convenience constructors.
pub const DEF_LANES: u32 = 1;

/// Default memory of the convenience constructors, in KiB.
pub const DEF_KIB: u32 = 4096;

/// Default tag length of the convenience constructors, in bytes.
pub const DEF_LENGTH: usize = 64;

/// Append every byte of `src` to `out`.
pub(crate) fn push_bytes(out: &mut Vec<u8>, src: &[u8])
    ensures
        final(out)@ == old(out)@ + src@,
{
    let mut i: usize = 0;
    while i < src.len()
        invariant
            i <= src@.len(),
            out@ == old(out)@ + src@.take(i as int),
        decreases src@.len() - i,
    {
        out.push(src[i]);
        proof {
            assert(out@ =~= old(out)@ + src@.take(i + 1));
        }
        i = i + 1;
    }
    proof {
        assert(old(out)@ + src@.take(src@.len() as int) =~= old(out)@ + src@);
    }
}

/// Append the four little-endian bytes of `x` to `out`.
pub(crate) fn push_le32(out: &mut Vec<u8>, x: u32)
    ensures
        final(out)@ == old(out)@ + spec_u32_to_le_bytes(x),
{
    let mut b = u32_to_le_bytes(x);
    out.append(&mut b);
}

/// The length-prefixed field encoding used by H0: `le32(|t|) || t`.
pub open spec fn len_prefixed(t: Seq<u8>) -> Seq<u8> {
    spec_u32_to_le_bytes(t.len() as u32) + t
}

/// The byte string hashed to produce H0.
pub open spec fn h0_input(
    lanes: u32,
    hash_length: u32,
    memory_kib: u32,
    passes: u32,
    version: u32,
    vcode: u32,
    p: Seq<u8>,
    s: Seq<u8>,
    k: Seq<u8>,
    x: Seq<u8>,
) -> Seq<u8> {
    spec_u32_to_le_bytes(lanes) + spec_u32_to_le_bytes(hash_length) + spec_u32_to_le_bytes(
        memory_kib,
    ) + spec_u32_to_le_bytes(passes) + spec_u32_to_le_bytes(version) + spec_u32_to_le_bytes(vcode)
        + len_prefixed(p) + len_prefixed(s) + len_prefixed(k) + len_prefixed(x)
}

/// The 72-byte H0 buffer: the 64-byte pre-hash followed by eight zero bytes
/// of scratch for the two seeding counters.
pub open spec fn spec_h0(
    lanes: u32,
    hash_length: u32,
    memory_kib: u32,
    passes: u32,
    version: u32,
    variant: Variant,
    p: Seq<u8>,
    s: Seq<u8>,
    k: Seq<u8>,
    x: Seq<u8>,
) -> Seq<u8> {
    blake2b_of(
        h0_input(
            lanes,
            hash_length,
            memory_kib,
            passes,
            version,
            spec_variant_code(variant),
            p,
            s,
            k,
            x,
        ),
        64,
    ) + Seq::new(8, |i: int| 0u8)
}

/// Compute the 72-byte H0 buffer from the parameters and the four inputs.
pub fn h0(
    lanes: u32,
    hash_length: u32,
    memory_kib: u32,
    passes: u32,
    version: u32,
    variant: Variant,
    p: &[u8],
    s: &[u8],
    k: &[u8],
    x: &[u8],
) -> (r: Vec<u8>)
    requires
        p@.len() <= u32::MAX,
        s@.len() <= u32::MAX,
        k@.len() <= u32::MAX,
        x@.len() <= u32::MAX,
    ensures
        r@ == spec_h0(lanes, hash_length, memory_kib, passes, version, variant, p@, s@, k@, x@),
        r@.len() == 72,
{
    let mut msg: Vec<u8> = Vec::new();
    push_le32(&mut msg, lanes);
    push_le32(&mut msg, hash_length);
    push_le32(&mut msg, memory_kib);
    push_le32(&mut msg, passes);
    push_le32(&mut msg, version);
    push_le32(&mut msg, variant_code(variant));
    push_le32(&mut msg, p.len() as u32);
    push_bytes(&mut msg, p);
    push_le32(&mut msg, s.len() as u32);
    push_bytes(&mut msg, s);
    push_le32(&mut msg, k.len() as u32);
    push_bytes(&mut msg, k);
    push_le32(&mut msg, x.len() as u32);
    push_bytes(&mut msg, x);
    proof {
        assert(msg@ =~= h0_input(
            lanes,
            hash_length,
            memory_kib,
            passes,
            version,
            spec_variant_code(variant),
            p@,
            s@,
            k@,
            x@,
        ));
    }
    let mut r = blake2b(&msg, DEF_B2HASH_LEN);
    let mut i: usize = 0;
    while i < 8
        invariant
            i <= 8,
            r@ == blake2b_of(
                h0_input(
                    lanes,
                    hash_length,
                    memory_kib,
                    passes,
                    version,
                    spec_variant_code(variant),
                    p@,
                    s@,
                    k@,
                    x@,
                ),
                64,
            ) + Seq::new(i as nat, |j: int| 0u8),
        decreases 8 - i,
    {
        r.push(0);
        proof {
            assert(r@ =~= blake2b_of(
                h0_input(
                    lanes,
                    hash_length,
                    memory_kib,
                    passes,
                    version,
                    spec_variant_code(variant),
                    p@,
                    s@,
                    k@,
                    x@,
                ),
                64,
            ) + Seq::new((i + 1) as nat, |j: int| 0u8));
        }
        i = i + 1;
    }
    r
}

/// The tail of H': the overlapping 32-byte windows emitted after the first
/// digest, ending in one full digest of the remaining length.
pub open spec fn h_prime_tail(v: Seq<u8>, rem: nat) -> Seq<u8>
    decreases rem,
{
    if rem <= 64 {
        blake2b_of(v, rem)
    } else {
        let v2 = blake2b_of(v, 64);
        v2.take(32) + h_prime_tail(v2, (rem - 32) as nat)
    }
}

/// The Argon2 variable-length digest `H'(input, tau)` for `1 <= tau < 2^32`.
pub open spec fn h_prime_of(input: Seq<u8>, tau: nat) -> Seq<u8> {
    if tau <= 64 {
        blake2b_of(spec_u32_to_le_bytes(tau as u32) + input, tau)
    } else {
        let v1 = blake2b_of(spec_u32_to_le_bytes(tau as u32) + input, 64);
        v1.take(32) + h_prime_tail(v1, (tau - 32) as nat)
    }
}

/// Fill `out` with `H'(input, |out|)`; the length of `out` is unchanged and
/// every byte of it is overwritten.
pub fn h_prime(out: &mut Vec<u8>, input: &[u8])
    requires
        1 <= old(out)@.len() <= u32::MAX,
    ensures
        final(out)@ == h_prime_of(input@, old(out)@.len() as nat),
        final(out)@.len() == old(out)@.len(),
{
    let tau = out.len();
    let mut msg: Vec<u8> = Vec::new();
    push_le32(&mut msg, tau as u32);
    push_bytes(&mut msg, input);
    proof {
        assert(msg@ =~= spec_u32_to_le_bytes(tau as u32) + input@);
    }
    if tau <= DEF_B2HASH_LEN {
        let rv = blake2b(&msg, tau);
        *out = rv;
    } else {
        let ghost gspec = h_prime_of(input@, tau as nat);
        let mut v = blake2b(&msg, DEF_B2HASH_LEN);
        let mut rv: Vec<u8> = Vec::new();
        push_prefix32(&mut rv, &v);
        while tau - rv.len() > DEF_B2HASH_LEN
            invariant
                v@.len() == 64,
                32 < tau - rv@.len(),
                rv@.len() < tau <= u32::MAX,
                gspec == rv@ + h_prime_tail(v@, (tau - rv@.len()) as nat),
            decreases tau - rv@.len(),
        {
            let v2 = blake2b(&v, DEF_B2HASH_LEN);
            v = v2;
            push_prefix32(&mut rv, &v);
        }
        let rem = tau - rv.len();
        let mut last = blake2b(&v, rem);
        rv.append(&mut last);
        *out = rv;
    }
}

/// Append the first 32 bytes of the 64-byte digest `v` to `out`.
fn push_prefix32(out: &mut Vec<u8>, v: &Vec<u8>)
    requires
        v@.len() == 64,
    ensures
        final(out)@ == old(out)@ + v@.take(32),
{
    let mut i: usize = 0;
    while i < 32
        invariant
            v@.len() == 64,
            i <= 32,
            out@ == old(out)@ + v@.take(i as int),
        decreases 32 - i,
    {
        out.push(v[i]);
        proof {
            assert(out@ =~= old(out)@ + v@.take(i + 1));
        }
        i = i + 1;
    }
}

/// The reference window size `R` of `index_alpha`.
pub open spec fn spec_ref_window(pass: u32, slice: u32, same_lane: bool, sliceidx: u32, slicelen: u32) -> int {
    if pass == 0 && slice == 0 {
        sliceidx - 1
    } else if pass == 0 && !same_lane {
        slice * slicelen - (if sliceidx == 0 { 1int } else { 0int })
    } else if pass == 0 {
        slice * slicelen + sliceidx - 1
    } else if !same_lane {
        3 * slicelen - (if sliceidx == 0 { 1int } else { 0int })
    } else {
        3 * slicelen + sliceidx - 1
    }
}

/// The column picked by `index_alpha`: the relative position
/// `R - 1 - (R * ((J1^2) >> 32) >> 32)` into the reference window, shifted by
/// the window's start and reduced modulo the lane length `4 * slicelen`.
pub open spec fn spec_index_alpha(
    pass: u32,
    lane: u32,
    slice: u32,
    lanes: u32,
    sliceidx: u32,
    slicelen: u32,
    j1: u32,
    j2: u32,
) -> int {
    let same_lane = (j2 as int) % (lanes as int) == lane;
    let r = spec_ref_window(pass, slice, same_lane, sliceidx, slicelen);
    let t = (j1 * j1) / 0x1_0000_0000;
    let rel = r - 1 - (r * t) / 0x1_0000_0000;
    let start: int = if pass == 0 || slice == 3 {
        0
    } else {
        slicelen * (slice + 1)
    };
    (start + rel) % (4 * slicelen)
}

/// The relative position lies in `[0, R)`.
proof fn lemma_relpos_range(r: int, j1: u32)
    requires
        1 <= r,
    ensures
        0 <= (r * ((j1 * j1) / 0x1_0000_0000)) / 0x1_0000_0000 < r,
{
    let t = (j1 * j1) / 0x1_0000_0000;
    assert(j1 * j1 < 0x1_0000_0000 * 0x1_0000_0000) by (nonlinear_arith);
    assert(t < 0x1_0000_0000) by {
        lemma_multiply_divide_lt(j1 * j1, 0x1_0000_0000, 0x1_0000_0000);
    }
    assert(0 <= t) by {
        assert(0 <= j1 * j1) by (nonlinear_arith);
    }
    assert(r * t < r * 0x1_0000_0000) by {
        if t < 0x1_0000_0000 {
            lemma_mul_strict_inequality(t, 0x1_0000_0000, r);
        }
        assert(r * t == t * r && r * 0x1_0000_0000 == 0x1_0000_0000 * r) by (nonlinear_arith);
    }
    assert((r * t) / 0x1_0000_0000 < r) by {
        lemma_multiply_divide_lt(r * t, r, 0x1_0000_0000);
    }
    assert(0 <= r * t) by (nonlinear_arith)
        requires
            r >= 1 && t >= 0,
    ;
    assert(0 <= (r * t) / 0x1_0000_0000) by {
        lemma_div_pos_is_pos(r * t, 0x1_0000_0000);
    }
}

/// Exec counterpart of the `u64` mul-shift chain of `index_alpha`.
fn relpos(r: u32, j1: u32) -> (rel: u64)
    requires
        r >= 1,
    ensures
        rel == spec_ref_window_rel(r as int, j1),
        rel < r,
{
    let r64 = r as u64;
    let j = j1 as u64;
    proof {
        assert((j1 as int) * (j1 as int) <= 0xffff_ffff * 0xffff_ffff) by (nonlinear_arith)
            requires
                j1 <= 0xffff_ffff,
        ;
        lemma2_to64();
    }
    let jj = j * j;
    let t = jj >> 32u64;
    proof {
        lemma_u64_shr_is_div(jj, 32);
        assert(t == (j1 * j1) / 0x1_0000_0000);
        lemma_relpos_range(r as int, j1);
        assert((r64 as int) * (t as int) <= 0xffff_ffff * 0xffff_ffff) by (nonlinear_arith)
            requires
                r64 <= 0xffff_ffff && t <= 0xffff_ffff,
        ;
    }
    let rt = r64 * t;
    let y = rt >> 32u64;
    proof {
        lemma_u64_shr_is_div(rt, 32);
        assert(y == ((r as int) * ((j1 * j1) / 0x1_0000_0000)) / 0x1_0000_0000);
    }
    r64 - 1 - y
}

/// `R - 1 - (R * ((J1^2) >> 32) >> 32)` over the integers.
pub open spec fn spec_ref_window_rel(r: int, j1: u32) -> int {
    r - 1 - (r * ((j1 * j1) / 0x1_0000_0000)) / 0x1_0000_0000
}

/// Pick the column of the reference block for the block at position
/// `sliceidx` of slice `slice` of a lane, during pass `pass`.
///
/// For every legal input the result lies in `[0, lanelen)`; during pass 0 it
/// lies strictly before the current block's column within the lane's own
/// progress window, and a cross-lane reference stays in earlier slices.
pub fn index_alpha(
    pass: u32,
    lane: u32,
    slice: u32,
    lanes: u32,
    sliceidx: u32,
    slicelen: u32,
    j1: u32,
    j2: u32,
) -> (z: u32)
    requires
        lanes >= 1,
        slice < 4,
        slicelen >= 2,
        sliceidx < slicelen,
        4 * slicelen <= u32::MAX,
        pass == 0 && slice == 0 ==> sliceidx >= 2,
    ensures
        z == spec_index_alpha(pass, lane, slice, lanes, sliceidx, slicelen, j1, j2),
        z < 4 * slicelen,
        pass == 0 ==> (z as int) < slice * slicelen + sliceidx,
        pass == 0 && slice > 0 && j2 % lanes != lane ==> (z as int) < slice * slicelen,
{
    let lanelen = 4 * slicelen;
    let same_lane = j2 % lanes == lane;
    proof {
        assert(slice * slicelen <= 3 * (slicelen as int)) by (nonlinear_arith)
            requires
                slice <= 3 && slicelen >= 0,
        ;
        assert(slice >= 1 ==> slice * slicelen >= slicelen) by (nonlinear_arith)
            requires
                slicelen >= 0,
        ;
    }
    let r: u32 = if pass == 0 && slice == 0 {
        sliceidx - 1
    } else if pass == 0 && !same_lane {
        slice * slicelen - (if sliceidx == 0 { 1 } else { 0 })
    } else if pass == 0 {
        slice * slicelen + sliceidx - 1
    } else if !same_lane {
        lanelen - slicelen - (if sliceidx == 0 { 1 } else { 0 })
    } else {
        lanelen - slicelen + sliceidx - 1
    };
    proof {
        assert(r as int == spec_ref_window(pass, slice, same_lane, sliceidx, slicelen));
        assert(1 <= r && r as int <= 4 * slicelen - 2);
    }
    let rel = relpos(r, j1);
    let start: u32 = if pass == 0 || slice == 3 {
        0
    } else {
        proof {
            assert((slicelen as int) * ((slice + 1) as int) <= (slicelen as int) * 3) by (nonlinear_arith)
                requires
                    slice + 1 <= 3 && slicelen >= 0,
            ;
        }
        slicelen * (slice + 1)
    };
    let z64 = ((start as u64) + rel) % (lanelen as u64);
    proof {
        lemma_mod_division_less_than_divisor((start as u64 + rel) as int, lanelen as int);
        assert(z64 == spec_index_alpha(pass, lane, slice, lanes, sliceidx, slicelen, j1, j2));
        if pass == 0 {
            assert(start == 0);
            assert(rel < r);
            lemma_small_mod(rel as nat, lanelen as nat);
            assert(z64 == rel);
        }
    }
    z64 as u32
}

/// An Argon2 parameter record: immutable after construction and always
/// well-formed.
pub struct Argon2 {
    passes: u32,
    lanes: u32,
    lanelen: u32,
    kib: u32,
    variant: Variant,
}

impl Argon2 {
    /// Number of passes `T`.
    pub closed spec fn spec_passes(&self) -> u32 {
        self.passes
    }

    /// Number of lanes `L`.
    pub closed spec fn spec_lanes(&self) -> u32 {
        self.lanes
    }

    /// Blocks per lane, derived from `kib` and `lanes`.
    pub closed spec fn spec_lanelen(&self) -> u32 {
        self.lanelen
    }

    /// Requested memory in KiB.
    pub closed spec fn spec_kib(&self) -> u32 {
        self.kib
    }

    /// The variant.
    pub closed spec fn spec_variant(&self) -> Variant {
        self.variant
    }

    /// Parameter records constructed by this library: at least one pass, one
    /// lane and 8 KiB per lane, with the lane length derived as
    /// `(kib / (4 * lanes)) * 4`.
    pub open spec fn wf(&self) -> bool {
        &&& self.spec_passes() >= 1
        &&& self.spec_lanes() >= 1
        &&& self.spec_kib() >= 8 * self.spec_lanes()
        &&& self.spec_lanelen() == (self.spec_kib() as int / (4 * self.spec_lanes() as int)) * 4
        &&& self.spec_lanelen() >= 8
        &&& self.spec_lanelen() % 4 == 0
        &&& self.spec_lanes() * self.spec_lanelen() <= self.spec_kib()
    }

    /// Validate the parameters and derive the lane length.
    ///
    /// Fails with `TooFewPasses` exactly when `passes == 0`, else with
    /// `TooFewLanes` exactly when `lanes == 0`, else with `MinKiB(8 * lanes)`
    /// exactly when `kib < 8 * lanes`; otherwise the record is returned.
    pub fn new(passes: u32, lanes: u32, kib: u32, variant: Variant) -> (r: Result<Argon2, ParamErr>)
        ensures
            match r {
                Ok(a) => {
                    &&& passes >= 1
                    &&& lanes >= 1
                    &&& kib >= 8 * lanes
                    &&& a.wf()
                    &&& a.spec_passes() == passes
                    &&& a.spec_lanes() == lanes
                    &&& a.spec_kib() == kib
                    &&& a.spec_variant() == variant
                },
                Err(ParamErr::TooFewPasses) => passes < 1,
                Err(ParamErr::TooFewLanes) => passes >= 1 && lanes < 1,
                Err(ParamErr::MinKiB(min)) => {
                    &&& passes >= 1
                    &&& lanes >= 1
                    &&& kib < 8 * lanes
                    &&& min == 8 * lanes
                },
            },
    {
        if passes < 1 {
            Err(ParamErr::TooFewPasses)
        } else if lanes < 1 {
            Err(ParamErr::TooFewLanes)
        } else if (kib as u64) < 8 * (lanes as u64) {
            Err(ParamErr::MinKiB(8 * (lanes as u64)))
        } else {
            let q = kib / (4 * lanes);
            proof {
                let k = kib as int;
                let l = lanes as int;
                assert(q == k / (4 * l));
                lemma_div_is_ordered(8 * l, k, 4 * l);
                lemma_div_multiples_vanish(2, 4 * l);
                assert((8 * l) / (4 * l) == 2) by {
                    assert(8 * l == 2 * (4 * l)) by (nonlinear_arith);
                }
                assert(q >= 2);
                lemma_fundamental_div_mod(k, 4 * l);
                assert(k % (4 * l) >= 0);
                assert((k / (4 * l)) * (4 * l) <= k) by (nonlinear_arith)
                    requires
                        k == (4 * l) * (k / (4 * l)) + k % (4 * l) && k % (4 * l) >= 0,
                ;
                assert(l * (q * 4) == q * (4 * l)) by (nonlinear_arith);
                assert(q * 4 <= l * (q * 4)) by (nonlinear_arith)
                    requires
                        l >= 1 && q * 4 >= 0,
                ;
                assert((q * 4) % 4 == 0) by (nonlinear_arith);
            }
            let lanelen = q * 4;
            Ok(Argon2 { passes, lanes, lanelen, kib, variant })
        }
    }

    /// The record with the default parameters: three passes, one lane,
    /// 4096 KiB.
    pub fn default(v: Variant) -> (a: Argon2)
        ensures
            a.wf(),
            a.spec_passes() == DEF_PASSES,
            a.spec_lanes() == DEF_LANES,
            a.spec_kib() == DEF_KIB,
            a.spec_lanelen() == DEF_KIB,
            a.spec_variant() == v,
    {
        match Argon2::new(DEF_PASSES, DEF_LANES, DEF_KIB, v) {
            Ok(a) => {
                proof {
                    assert(a.spec_lanelen() == (4096int / 4) * 4);
                }
                a
            },
            Err(_) => vstd::pervasive::unreached(),
        }
    }

    /// The variant together with the memory, pass and lane counts, as encoded
    /// in a PHC string.
    pub fn params(&self) -> (r: (Variant, u32, u32, u32))
        ensures
            r == (self.spec_variant(), self.spec_kib(), self.spec_passes(), self.spec_lanes()),
    {
        (self.variant, self.kib, self.passes, self.lanes)
    }
}

/// Low 32 bits of a stream word: `J1`.
pub open spec fn lo32_of(w: u64) -> u32 {
    (w & 0xffff_ffff) as u32
}

/// High 32 bits of a stream word: `J2`.
pub open spec fn hi32_of(w: u64) -> u32 {
    (w >> 32u64) as u32
}

/// Split a stream word into `(J1, J2) = (low 32 bits, high 32 bits)`.
pub fn split_u64(n: u64) -> (r: (u32, u32))
    ensures
        r.0 == lo32_of(n),
        r.1 == hi32_of(n),
{
    proof {
        assert(n & 0xffff_ffff <= 0xffff_ffff && n >> 32u64 <= 0xffff_ffff) by (bit_vector);
    }
    ((n & 0xffff_ffff) as u32, (n >> 32) as u32)
}

/// The argument block of the Argon2i index generator: the six parameters in
/// the first six words, the refill counter in word 6, zeroes elsewhere.
pub open spec fn gen_arg_words(
    pass: u32,
    lane: u32,
    slice: u32,
    totblocks: u32,
    totpasses: u32,
    ctr: u64,
) -> Seq<u64> {
    Seq::new(
        BLOCK_U64S as nat,
        |i: int|
            if i == 0 {
                pass as u64
            } else if i == 1 {
                lane as u64
            } else if i == 2 {
                slice as u64
            } else if i == 3 {
                totblocks as u64
            } else if i == 4 {
                totpasses as u64
            } else if i == 5 {
                1u64
            } else if i == 6 {
                ctr
            } else {
                0u64
            },
    )
}

/// Word `k` of the data-independent `(J1, J2)` stream for one slice of one
/// lane: the `k % 128`-th word of `G2` of the argument block whose counter is
/// `k / 128 + 1`.
pub open spec fn gen2i_word(
    pass: u32,
    lane: u32,
    slice: u32,
    totblocks: u32,
    totpasses: u32,
    k: nat,
) -> u64 {
    spec_g2(gen_arg_words(pass, lane, slice, totblocks, totpasses, (k / 128 + 1) as u64))[(
    k % 128) as int]
}

/// The data-independent index generator: hands out the `(J1, J2)` stream of
/// one slice of one lane, refilling a pseudo-random block with `G2` after
/// every 128 words.
pub struct IndexGen {
    arg: Block,
    pseudos: Block,
    idx: usize,
}

impl IndexGen {
    /// The `pass` argument the generator was built with.
    pub closed spec fn spec_pass(&self) -> u32 {
        self.arg@[0] as u32
    }

    /// The `lane` argument the generator was built with.
    pub closed spec fn spec_lane(&self) -> u32 {
        self.arg@[1] as u32
    }

    /// The `slice` argument the generator was built with.
    pub closed spec fn spec_slice(&self) -> u32 {
        self.arg@[2] as u32
    }

    /// The `totblocks` argument the generator was built with.
    pub closed spec fn spec_totblocks(&self) -> u32 {
        self.arg@[3] as u32
    }

    /// The `totpasses` argument the generator was built with.
    pub closed spec fn spec_totpasses(&self) -> u32 {
        self.arg@[4] as u32
    }

    /// How many stream words were consumed or skipped so far.
    pub closed spec fn spec_consumed(&self) -> nat {
        ((self.arg@[6] - 1) * 128 + self.idx) as nat
    }

    /// The generator state is coherent: the argument block has the packed
    /// shape, the counter matches the consumed count, and the pseudo-random
    /// block is `G2` of the argument block.
    pub closed spec fn wf(&self) -> bool {
        &&& self.arg.wf()
        &&& self.pseudos.wf()
        &&& self.idx < 128
        &&& 1 <= self.arg@[6] <= 0x200_0000_0000u64
        &&& self.arg@ == gen_arg_words(
            self.spec_pass(),
            self.spec_lane(),
            self.spec_slice(),
            self.spec_totblocks(),
            self.spec_totpasses(),
            self.arg@[6],
        )
        &&& self.pseudos@ == spec_g2(self.arg@)
    }

    /// A generator for `(pass, lane, slice)`, positioned `start_at` words into
    /// the stream.
    pub fn new(
        start_at: usize,
        pass: u32,
        lane: u32,
        slice: u32,
        totblocks: u32,
        totpasses: u32,
    ) -> (gen: IndexGen)
        requires
            start_at < 128,
        ensures
            gen.wf(),
            gen.spec_pass() == pass,
            gen.spec_lane() == lane,
            gen.spec_slice() == slice,
            gen.spec_totblocks() == totblocks,
            gen.spec_totpasses() == totpasses,
            gen.spec_consumed() == start_at,
    {
        let mut arg = zero();
        arg.set(0, pass as u64);
        arg.set(1, lane as u64);
        arg.set(2, slice as u64);
        arg.set(3, totblocks as u64);
        arg.set(4, totpasses as u64);
        arg.set(5, 1);
        arg.set(6, 1);
        proof {
            assert(arg@ =~= gen_arg_words(pass, lane, slice, totblocks, totpasses, 1));
        }
        let mut pseudos = zero();
        g_two(&mut pseudos, &arg);
        IndexGen { arg, pseudos, idx: start_at }
    }

    /// Advance the counter and refill the pseudo-random block, skipping the
    /// rest of the current 128-word window.
    pub fn more(&mut self)
        requires
            old(self).wf(),
            old(self).spec_consumed() < 0x8000_0000_0000u64,
        ensures
            final(self).wf(),
            final(self).spec_pass() == old(self).spec_pass(),
            final(self).spec_lane() == old(self).spec_lane(),
            final(self).spec_slice() == old(self).spec_slice(),
            final(self).spec_totblocks() == old(self).spec_totblocks(),
            final(self).spec_totpasses() == old(self).spec_totpasses(),
            final(self).spec_consumed() == old(self).spec_consumed() + 128,
    {
        let c = self.arg.get(6);
        self.arg.set(6, c + 1);
        proof {
            assert(self.arg@ =~= gen_arg_words(
                old(self).spec_pass(),
                old(self).spec_lane(),
                old(self).spec_slice(),
                old(self).spec_totblocks(),
                old(self).spec_totpasses(),
                (c + 1) as u64,
            ));
        }
        let mut pseudos = zero();
        g_two(&mut pseudos, &self.arg);
        self.pseudos = pseudos;
    }

    /// Hand out the next `(J1, J2)` pair of the stream.
    pub fn nextj(&mut self) -> (j: (u32, u32))
        requires
            old(self).wf(),
            old(self).spec_consumed() < 0x4000_0000_0000u64,
        ensures
            final(self).wf(),
            final(self).spec_pass() == old(self).spec_pass(),
            final(self).spec_lane() == old(self).spec_lane(),
            final(self).spec_slice() == old(self).spec_slice(),
            final(self).spec_totblocks() == old(self).spec_totblocks(),
            final(self).spec_totpasses() == old(self).spec_totpasses(),
            final(self).spec_consumed() == old(self).spec_consumed() + 1,
            j.0 == lo32_of(
                gen2i_word(
                    old(self).spec_pass(),
                    old(self).spec_lane(),
                    old(self).spec_slice(),
                    old(self).spec_totblocks(),
                    old(self).spec_totpasses(),
                    old(self).spec_consumed(),
                ),
            ),
            j.1 == hi32_of(
                gen2i_word(
                    old(self).spec_pass(),
                    old(self).spec_lane(),
                    old(self).spec_slice(),
                    old(self).spec_totblocks(),
                    old(self).spec_totpasses(),
                    old(self).spec_consumed(),
                ),
            ),
    {
        let w = self.pseudos.get(self.idx);
        proof {
            let ctr = self.arg@[6];
            let consumed = old(self).spec_consumed();
            lemma_fundamental_div_mod_converse(consumed as int, 128, ctr - 1, self.idx as int);
            assert(consumed as int / 128 == ctr - 1 && consumed as int % 128 == self.idx as int);
            assert(w == gen2i_word(
                old(self).spec_pass(),
                old(self).spec_lane(),
                old(self).spec_slice(),
                old(self).spec_totblocks(),
                old(self).spec_totpasses(),
                consumed,
            ));
        }
        let j = split_u64(w);
        if self.idx < 127 {
            self.idx = self.idx + 1;
        } else {
            self.idx = 0;
            proof {
                assert(self.wf());
            }
            self.more();
        }
        j
    }
}

/// The column preceding `col` in a lane, wrapping to the last column.
pub open spec fn spec_prev(col: int, lanelen: int) -> int {
    if col > 0 {
        col - 1
    } else {
        lanelen - 1
    }
}

/// The stream word giving `(J1, J2)` for the block at offset `idx` of
/// `(pass, lane, slice)`: for Argon2i the next word of the data-independent
/// stream, for Argon2d the first word of the previous block of the lane.
pub open spec fn spec_js(
    a: Argon2,
    m: Seq<Seq<u64>>,
    pass: u32,
    lane: u32,
    slice: u32,
    idx: u32,
) -> u64 {
    let lanelen = a.spec_lanelen() as int;
    let slicelen = a.spec_lanelen() as int / 4;
    if a.spec_variant() == Variant::Argon2i {
        gen2i_word(
            pass,
            lane,
            slice,
            (a.spec_lanes() * a.spec_lanelen()) as u32,
            a.spec_passes(),
            idx as nat,
        )
    } else {
        m[bi(lane as int, spec_prev(slice * slicelen + idx, lanelen), lanelen)][0]
    }
}

/// The matrix after the block at offset `idx` of `(pass, lane, slice)` is
/// computed: `G` of the lane's previous block and the reference block that
/// `index_alpha` picks from `(J1, J2)`.
pub open spec fn spec_fill_block(
    a: Argon2,
    m: Seq<Seq<u64>>,
    pass: u32,
    lane: u32,
    slice: u32,
    idx: u32,
) -> Seq<Seq<u64>> {
    let lanelen = a.spec_lanelen() as int;
    let slicelen = (a.spec_lanelen() / 4) as u32;
    let w = spec_js(a, m, pass, lane, slice, idx);
    let j1 = lo32_of(w);
    let j2 = hi32_of(w);
    let z = spec_index_alpha(pass, lane, slice, a.spec_lanes(), idx, slicelen, j1, j2);
    let zlane: int = if pass == 0 && slice == 0 {
        lane as int
    } else {
        (j2 as int) % (a.spec_lanes() as int)
    };
    let cur = bi(lane as int, slice * slicelen + idx, lanelen);
    let pre = bi(lane as int, spec_prev(slice * slicelen + idx, lanelen), lanelen);
    let refi = bi(zlane, z, lanelen);
    m.update(cur, spec_g(m[pre], m[refi]))
}

/// The matrix after offsets `idx..slicelen` of one slice of one lane are
/// filled in order.
pub open spec fn spec_fill_slice_from(
    a: Argon2,
    m: Seq<Seq<u64>>,
    pass: u32,
    lane: u32,
    slice: u32,
    idx: u32,
) -> Seq<Seq<u64>>
    decreases a.spec_lanelen() / 4 - idx,
{
    let slicelen = (a.spec_lanelen() / 4) as u32;
    if idx >= slicelen {
        m
    } else {
        spec_fill_slice_from(
            a,
            spec_fill_block(a, m, pass, lane, slice, idx),
            pass,
            lane,
            slice,
            (idx + 1) as u32,
        )
    }
}

/// The H' input that seeds column `col` of lane `lane`: the 64-byte prehash
/// followed by the two little-endian counters.
pub open spec fn seed_input(h0: Seq<u8>, col: u32, lane: u32) -> Seq<u8> {
    h0.take(64) + spec_u32_to_le_bytes(col) + spec_u32_to_le_bytes(lane)
}

/// The contents of a seeded block: `H'` of the counter-stamped H0, 1 KiB long.
pub open spec fn spec_seed_block(h0: Seq<u8>, col: u32, lane: u32) -> Seq<u64> {
    bytes_to_words(h_prime_of(seed_input(h0, col, lane), BLOCK_BYTES as nat))
}

/// The matrix after lane `lane` runs its part of the first slice of pass 0:
/// columns 0 and 1 seeded from H0, the rest of the slice filled.
pub open spec fn spec_first_slice_lane(
    a: Argon2,
    m: Seq<Seq<u64>>,
    h0: Seq<u8>,
    lane: u32,
) -> Seq<Seq<u64>> {
    let lanelen = a.spec_lanelen() as int;
    let m1 = m.update(bi(lane as int, 0, lanelen), spec_seed_block(h0, 0, lane));
    let m2 = m1.update(bi(lane as int, 1, lanelen), spec_seed_block(h0, 1, lane));
    spec_fill_slice_from(a, m2, 0, lane, 0, 2)
}

/// A fresh byte buffer of length `n`.
pub(crate) fn byte_buffer(n: usize) -> (v: Vec<u8>)
    ensures
        v@.len() == n,
{
    let mut v: Vec<u8> = Vec::new();
    let mut i: usize = 0;
    while i < n
        invariant
            i <= n,
            v@.len() == i,
        decreases n - i,
    {
        v.push(0);
        i = i + 1;
    }
    v
}

impl Argon2 {
    /// Compute the block at offset `idx` of `(pass, lane, slice)` from the
    /// stream word `(j1, j2)` that belongs to that position.
    pub fn fill_block(
        &self,
        blks: &mut Matrix,
        pass: u32,
        lane: u32,
        slice: u32,
        idx: u32,
        j1: u32,
        j2: u32,
    )
        requires
            self.wf(),
            old(blks).wf(),
            old(blks).spec_lanes() == self.spec_lanes(),
            old(blks).spec_lanelen() == self.spec_lanelen(),
            lane < self.spec_lanes(),
            slice < 4,
            idx < self.spec_lanelen() / 4,
            pass == 0 && slice == 0 ==> idx >= 2,
            j1 == lo32_of(spec_js(*self, old(blks)@, pass, lane, slice, idx)),
            j2 == hi32_of(spec_js(*self, old(blks)@, pass, lane, slice, idx)),
        ensures
            final(blks).wf(),
            final(blks).spec_lanes() == old(blks).spec_lanes(),
            final(blks).spec_lanelen() == old(blks).spec_lanelen(),
            final(blks)@ == spec_fill_block(*self, old(blks)@, pass, lane, slice, idx),
    {
        let slicelen = self.lanelen / 4;
        proof {
            lemma_fundamental_div_mod(self.lanelen as int, 4);
            assert(4 * (slicelen as int) == self.lanelen as int);
            assert(slice * (slicelen as int) <= 3 * (slicelen as int)) by (nonlinear_arith)
                requires
                    slice <= 3 && slicelen >= 0,
            ;
        }
        let z = index_alpha(pass, lane, slice, self.lanes, idx, slicelen, j1, j2);
        let zlane = if pass == 0 && slice == 0 {
            lane
        } else {
            j2 % self.lanes
        };
        let col = slice * slicelen + idx;
        let pre_col = if col > 0 {
            col - 1
        } else {
            self.lanelen - 1
        };
        let mut d = crate::block::zero();
        let pre = blks.get_block(lane, pre_col);
        let refb = blks.get_block(zlane, z);
        g(&mut d, pre, refb);
        blks.set_block(lane, col, d);
    }

    /// Fill offsets `offset..slicelen` of one slice of one lane; `offset` is 2
    /// for the pre-seeded first slice of pass 0 and 0 otherwise.
    pub fn fill_slice(&self, blks: &mut Matrix, pass: u32, lane: u32, slice: u32, offset: u32)
        requires
            self.wf(),
            old(blks).wf(),
            old(blks).spec_lanes() == self.spec_lanes(),
            old(blks).spec_lanelen() == self.spec_lanelen(),
            lane < self.spec_lanes(),
            slice < 4,
            offset == (if pass == 0 && slice == 0 { 2int } else { 0int }),
        ensures
            final(blks).wf(),
            final(blks).spec_lanes() == old(blks).spec_lanes(),
            final(blks).spec_lanelen() == old(blks).spec_lanelen(),
            final(blks)@ == spec_fill_slice_from(*self, old(blks)@, pass, lane, slice, offset),
    {
        let slicelen = self.lanelen / 4;
        proof {
            lemma_fundamental_div_mod(self.lanelen as int, 4);
        }
        let totblocks = self.lanes * self.lanelen;
        let mut jgen = IndexGen::new(offset as usize, pass, lane, slice, totblocks, self.passes);
        let mut i = offset;
        while i < slicelen
            invariant
                self.wf(),
                blks.wf(),
                blks.spec_lanes() == self.spec_lanes(),
                blks.spec_lanelen() == self.spec_lanelen(),
                lane < self.spec_lanes(),
                slice < 4,
                offset == (if pass == 0 && slice == 0 { 2int } else { 0int }),
                slicelen == self.spec_lanelen() / 4,
                totblocks == self.spec_lanes() * self.spec_lanelen(),
                offset <= i <= slicelen,
                jgen.wf(),
                jgen.spec_pass() == pass,
                jgen.spec_lane() == lane,
                jgen.spec_slice() == slice,
                jgen.spec_totblocks() == totblocks,
                jgen.spec_totpasses() == self.spec_passes(),
                self.spec_variant() == Variant::Argon2i ==> jgen.spec_consumed() == i,
                spec_fill_slice_from(*self, old(blks)@, pass, lane, slice, offset)
                    == spec_fill_slice_from(*self, blks@, pass, lane, slice, i),
            decreases slicelen - i,
        {
            let ghost m_i = blks@;
            let (j1, j2) = if self.variant == Variant::Argon2i {
                jgen.nextj()
            } else {
                proof {
                    assert(slice * (slicelen as int) <= 3 * (slicelen as int)) by (nonlinear_arith)
                        requires
                            slice <= 3 && slicelen >= 0,
                    ;
                }
                let col = slice * slicelen + i;
                let pre_col = if col > 0 {
                    col - 1
                } else {
                    self.lanelen - 1
                };
                split_u64(blks.get_block(lane, pre_col).get(0))
            };
            proof {
                assert(j1 == lo32_of(spec_js(*self, m_i, pass, lane, slice, i)));
                assert(j2 == hi32_of(spec_js(*self, m_i, pass, lane, slice, i)));
            }
            self.fill_block(blks, pass, lane, slice, i, j1, j2);
            proof {
                assert(spec_fill_slice_from(*self, m_i, pass, lane, slice, i)
                    == spec_fill_slice_from(*self, blks@, pass, lane, slice, (i + 1) as u32));
            }
            i = i + 1;
        }
    }

    /// Seed columns 0 and 1 of `lane` from the counter-stamped H0, then fill
    /// the rest of the first slice of pass 0.
    pub fn fill_first_slice(&self, blks: &mut Matrix, h0: &Vec<u8>, lane: u32)
        requires
            self.wf(),
            old(blks).wf(),
            old(blks).spec_lanes() == self.spec_lanes(),
            old(blks).spec_lanelen() == self.spec_lanelen(),
            lane < self.spec_lanes(),
            h0@.len() == 72,
        ensures
            final(blks).wf(),
            final(blks).spec_lanes() == old(blks).spec_lanes(),
            final(blks).spec_lanelen() == old(blks).spec_lanelen(),
            final(blks)@ == spec_first_slice_lane(*self, old(blks)@, h0@, lane),
    {
        let mut col: u32 = 0;
        while col < 2
            invariant
                self.wf(),
                blks.wf(),
                blks.spec_lanes() == self.spec_lanes(),
                blks.spec_lanelen() == self.spec_lanelen(),
                lane < self.spec_lanes(),
                h0@.len() == 72,
                col <= 2,
                col == 0 ==> blks@ == old(blks)@,
                col == 1 ==> blks@ == old(blks)@.update(
                    bi(lane as int, 0, self.spec_lanelen() as int),
                    spec_seed_block(h0@, 0, lane),
                ),
                col >= 2 ==> blks@ == old(blks)@.update(
                    bi(lane as int, 0, self.spec_lanelen() as int),
                    spec_seed_block(h0@, 0, lane),
                ).update(bi(lane as int, 1, self.spec_lanelen() as int), spec_seed_block(h0@, 1, lane)),
            decreases 2 - col,
        {
            let mut msg: Vec<u8> = Vec::new();
            push_bytes(&mut msg, vstd::slice::slice_subrange(h0.as_slice(), 0, 64));
            push_le32(&mut msg, col);
            push_le32(&mut msg, lane);
            proof {
                assert(msg@ =~= seed_input(h0@, col, lane));
            }
            let mut outbuf = byte_buffer(BLOCK_BYTES);
            h_prime(&mut outbuf, msg.as_slice());
            let seeded = Block::from_u8(outbuf.as_slice());
            proof {
                assert(outbuf@ == h_prime_of(seed_input(h0@, col, lane), BLOCK_BYTES as nat));
                assert(seeded@ == spec_seed_block(h0@, col, lane));
            }
            blks.set_block(lane, col, seeded);
            col = col + 1;
        }
        self.fill_slice(blks, 0, lane, 0, 2);
    }
}

/// XOR of the first `n` blocks of a list, starting from the zero block.
pub open spec fn spec_xor_all(bs: Seq<Seq<u64>>, n: nat) -> Seq<u64>
    decreases n,
{
    if n == 0 {
        zero_words()
    } else {
        xor_words(spec_xor_all(bs, (n - 1) as nat), bs[n - 1])
    }
}

/// XOR all the blocks of the list together.
pub fn xor_all(blocks: &Vec<&Block>) -> (r: Block)
    requires
        forall|i: int| 0 <= i < blocks@.len() ==> (#[trigger] blocks@[i]).wf(),
    ensures
        r.wf(),
        r@ == spec_xor_all(Seq::new(blocks@.len(), |i: int| blocks@[i]@), blocks@.len()),
{
    let ghost views = Seq::new(blocks@.len(), |i: int| blocks@[i]@);
    let mut r = crate::block::zero();
    let mut i: usize = 0;
    while i < blocks.len()
        invariant
            forall|j: int| 0 <= j < blocks@.len() ==> (#[trigger] blocks@[j]).wf(),
            views == Seq::new(blocks@.len(), |j: int| blocks@[j]@),
            i <= blocks@.len(),
            r.wf(),
            r@ == spec_xor_all(views, i as nat),
        decreases blocks@.len() - i,
    {
        let b: &Block = blocks[i];
        r.xor_with(b);
        i = i + 1;
    }
    r
}

/// Matrix after lanes `0..n` have each seeded and filled their part of the
/// first slice of pass 0.
pub open spec fn spec_seed_lanes(a: Argon2, m: Seq<Seq<u64>>, h0: Seq<u8>, n: nat) -> Seq<Seq<u64>>
    decreases n,
{
    if n == 0 {
        m
    } else {
        spec_first_slice_lane(a, spec_seed_lanes(a, m, h0, (n - 1) as nat), h0, (n - 1) as u32)
    }
}

/// The slice offset of the schedule: 2 only for the pre-seeded first slice.
pub open spec fn spec_slice_offset(pass: u32, slice: u32) -> u32 {
    if pass == 0 && slice == 0 {
        2
    } else {
        0
    }
}

/// Matrix after lanes `0..n` fill `(pass, slice)`, in lane order.
pub open spec fn spec_slice_lanes(
    a: Argon2,
    m: Seq<Seq<u64>>,
    pass: u32,
    slice: u32,
    n: nat,
) -> Seq<Seq<u64>>
    decreases n,
{
    if n == 0 {
        m
    } else {
        spec_fill_slice_from(
            a,
            spec_slice_lanes(a, m, pass, slice, (n - 1) as nat),
            pass,
            (n - 1) as u32,
            slice,
            spec_slice_offset(pass, slice),
        )
    }
}

/// Matrix after slices `s0 .. s0 + cnt` of `pass`, each over all lanes.
pub open spec fn spec_slices_from(
    a: Argon2,
    m: Seq<Seq<u64>>,
    pass: u32,
    s0: u32,
    cnt: nat,
) -> Seq<Seq<u64>>
    decreases cnt,
{
    if cnt == 0 {
        m
    } else {
        spec_slice_lanes(
            a,
            spec_slices_from(a, m, pass, s0, (cnt - 1) as nat),
            pass,
            (s0 + cnt - 1) as u32,
            a.spec_lanes() as nat,
        )
    }
}

/// Matrix after passes `1..=n`, each of four slices over all lanes.
pub open spec fn spec_passes_through(a: Argon2, m: Seq<Seq<u64>>, n: nat) -> Seq<Seq<u64>>
    decreases n,
{
    if n == 0 {
        m
    } else {
        spec_slices_from(a, spec_passes_through(a, m, (n - 1) as nat), n as u32, 0, 4)
    }
}

/// The working matrix at the end of the full schedule: seeding and slice 0,
/// slices 1..4 of pass 0, then passes 1..T.
pub open spec fn spec_final_matrix(a: Argon2, h0: Seq<u8>) -> Seq<Seq<u64>> {
    let m0 = Seq::new((a.spec_lanes() * a.spec_lanelen()) as nat, |i: int| zero_words());
    let m1 = spec_seed_lanes(a, m0, h0, a.spec_lanes() as nat);
    let m2 = spec_slices_from(a, m1, 0, 1, 3);
    spec_passes_through(a, m2, (a.spec_passes() - 1) as nat)
}

/// The tag of length `tau` for the inputs `(p, s, k, x)` under the parameters
/// `a`: `H'` of the XOR of the last column of the final working matrix.
pub open spec fn spec_hash(
    a: Argon2,
    tau: nat,
    p: Seq<u8>,
    s: Seq<u8>,
    k: Seq<u8>,
    x: Seq<u8>,
) -> Seq<u8> {
    let h0 = spec_h0(
        a.spec_lanes(),
        tau as u32,
        a.spec_kib(),
        a.spec_passes(),
        ARGON2_VERSION,
        a.spec_variant(),
        p,
        s,
        k,
        x,
    );
    let m = spec_final_matrix(a, h0);
    let last = xor_column_words(
        m,
        a.spec_lanelen() as int,
        a.spec_lanelen() - 1,
        a.spec_lanes() as nat,
    );
    h_prime_of(words_to_bytes(last), tau)
}

impl Argon2 {
    /// Fill `out` with the tag for password `p`, salt `s`, secret key `k` and
    /// associated data `x`; every byte of `out` is overwritten and its length
    /// is kept.
    pub fn hash(&self, out: &mut Vec<u8>, p: &[u8], s: &[u8], k: &[u8], x: &[u8])
        requires
            self.wf(),
            4 <= old(out)@.len() <= u32::MAX,
            p@.len() <= u32::MAX,
            s@.len() <= u32::MAX,
            k@.len() <= u32::MAX,
            x@.len() <= u32::MAX,
        ensures
            final(out)@.len() == old(out)@.len(),
            final(out)@ == spec_hash(*self, old(out)@.len() as nat, p@, s@, k@, x@),
    {
        let mut blks = Matrix::new(self.lanes, self.lanelen);
        let h0v = h0(
            self.lanes,
            out.len() as u32,
            self.kib,
            self.passes,
            ARGON2_VERSION,
            self.variant,
            p,
            s,
            k,
            x,
        );
        let ghost h0g = h0v@;
        let ghost m0 = blks@;
        let mut l: u32 = 0;
        while l < self.lanes
            invariant
                self.wf(),
                blks.wf(),
                blks.spec_lanes() == self.spec_lanes(),
                blks.spec_lanelen() == self.spec_lanelen(),
                h0v@ == h0g,
                h0v@.len() == 72,
                l <= self.spec_lanes(),
                blks@ == spec_seed_lanes(*self, m0, h0g, l as nat),
            decreases self.spec_lanes() - l,
        {
            self.fill_first_slice(&mut blks, &h0v, l);
            proof {
                assert(blks@ == spec_seed_lanes(*self, m0, h0g, (l + 1) as nat));
            }
            l = l + 1;
        }
        let ghost m1 = blks@;
        let mut sl: u32 = 1;
        while sl < 4
            invariant
                self.wf(),
                blks.wf(),
                blks.spec_lanes() == self.spec_lanes(),
                blks.spec_lanelen() == self.spec_lanelen(),
                1 <= sl <= 4,
                blks@ == spec_slices_from(*self, m1, 0, 1, (sl - 1) as nat),
            decreases 4 - sl,
        {
            let ghost m_sl = blks@;
            let mut l: u32 = 0;
            while l < self.lanes
                invariant
                    self.wf(),
                    blks.wf(),
                    blks.spec_lanes() == self.spec_lanes(),
                    blks.spec_lanelen() == self.spec_lanelen(),
                    1 <= sl <= 3,
                    l <= self.spec_lanes(),
                    blks@ == spec_slice_lanes(*self, m_sl, 0, sl, l as nat),
                decreases self.spec_lanes() - l,
            {
                self.fill_slice(&mut blks, 0, l, sl, 0);
                proof {
                    assert(blks@ == spec_slice_lanes(*self, m_sl, 0, sl, (l + 1) as nat));
                }
                l = l + 1;
            }
            proof {
                assert(blks@ == spec_slices_from(*self, m1, 0, 1, sl as nat));
            }
            sl = sl + 1;
        }
        let ghost m2 = blks@;
        let mut pass_no: u32 = 1;
        while pass_no < self.passes
            invariant
                self.wf(),
                blks.wf(),
                blks.spec_lanes() == self.spec_lanes(),
                blks.spec_lanelen() == self.spec_lanelen(),
                1 <= pass_no <= self.spec_passes(),
                blks@ == spec_passes_through(*self, m2, (pass_no - 1) as nat),
            decreases self.spec_passes() - pass_no,
        {
            let ghost m_pass = blks@;
            let mut sl: u32 = 0;
            while sl < 4
                invariant
                    self.wf(),
                    blks.wf(),
                    blks.spec_lanes() == self.spec_lanes(),
                    blks.spec_lanelen() == self.spec_lanelen(),
                    1 <= pass_no,
                    sl <= 4,
                    blks@ == spec_slices_from(*self, m_pass, pass_no, 0, sl as nat),
                decreases 4 - sl,
            {
                let ghost m_sl = blks@;
                let mut l: u32 = 0;
                while l < self.lanes
                    invariant
                        self.wf(),
                        blks.wf(),
                        blks.spec_lanes() == self.spec_lanes(),
                        blks.spec_lanelen() == self.spec_lanelen(),
                        1 <= pass_no,
                        sl <= 3,
                        l <= self.spec_lanes(),
                        blks@ == spec_slice_lanes(*self, m_sl, pass_no, sl, l as nat),
                    decreases self.spec_lanes() - l,
                {
                    self.fill_slice(&mut blks, pass_no, l, sl, 0);
                    proof {
                        assert(blks@ == spec_slice_lanes(*self, m_sl, pass_no, sl, (l + 1) as nat));
                    }
                    l = l + 1;
                }
                proof {
                    assert(blks@ == spec_slices_from(*self, m_pass, pass_no, 0, (sl + 1) as nat));
                }
                sl = sl + 1;
            }
            proof {
                assert(blks@ == spec_passes_through(*self, m2, pass_no as nat));
            }
            pass_no = pass_no + 1;
        }
        proof {
            assert(blks@ == spec_final_matrix(*self, h0g));
        }
        let lastcol = blks.xor_column(self.lanelen - 1);
        let bytes = lastcol.as_u8();
        blks.wipe();
        h_prime(out, bytes.as_slice());
    }

    /// Hash with an empty key and no associated data.
    pub fn simple(&self, out: &mut Vec<u8>, p: &[u8], s: &[u8])
        requires
            self.wf(),
            4 <= old(out)@.len() <= u32::MAX,
            p@.len() <= u32::MAX,
            s@.len() <= u32::MAX,
        ensures
            final(out)@.len() == old(out)@.len(),
            final(out)@ == spec_hash(
                *self,
                old(out)@.len() as nat,
                p@,
                s@,
                Seq::<u8>::empty(),
                Seq::<u8>::empty(),
            ),
    {
        self.hash(out, p, s, &[], &[]);
        proof {
            let e: &[u8] = &[];
            assert(e@ =~= Seq::<u8>::empty());
        }
    }

    /// The record that `default` returns.
    pub closed spec fn spec_default_record(v: Variant) -> Argon2 {
        Argon2 { passes: DEF_PASSES, lanes: DEF_LANES, lanelen: DEF_KIB, kib: DEF_KIB, variant: v }
    }
}

/// A 64-byte Argon2i tag for `password` and `salt` under the default
/// parameters; calling it twice on the same inputs gives the same bytes.
pub fn argon2i_simple(password: &str, salt: &str) -> (r: Vec<u8>)
    requires
        password.spec_bytes().len() <= u32::MAX,
        salt.spec_bytes().len() <= u32::MAX,
    ensures
        r@.len() == DEF_LENGTH,
        r@ == spec_hash(
            Argon2::spec_default_record(Variant::Argon2i),
            DEF_LENGTH as nat,
            password.spec_bytes(),
            salt.spec_bytes(),
            Seq::<u8>::empty(),
            Seq::<u8>::empty(),
        ),
{
    let a = Argon2::default(Variant::Argon2i);
    let mut out = byte_buffer(DEF_LENGTH);
    a.simple(&mut out, password.as_bytes(), salt.as_bytes());
    proof {
        assert(a == Argon2::spec_default_record(Variant::Argon2i));
    }
    out
}

/// A 64-byte Argon2d tag for `password` and `salt` under the default
/// parameters.
pub fn argon2d_simple(password: &str, salt: &str) -> (r: Vec<u8>)
    requires
        password.spec_bytes().len() <= u32::MAX,
        salt.spec_bytes().len() <= u32::MAX,
    ensures
        r@.len() == DEF_LENGTH,
        r@ == spec_hash(
            Argon2::spec_default_record(Variant::Argon2d),
            DEF_LENGTH as nat,
            password.spec_bytes(),
            salt.spec_bytes(),
            Seq::<u8>::empty(),
            Seq::<u8>::empty(),
        ),
{
    let a = Argon2::default(Variant::Argon2d);
    let mut out = byte_buffer(DEF_LENGTH);
    a.simple(&mut out, password.as_bytes(), salt.as_bytes());
    proof {
        assert(a == Argon2::spec_default_record(Variant::Argon2d));
    }
    out
}

/// Two hash computations with the same parameters and inputs give the same
/// tag: the schedule is a function of the parameters and inputs alone, with
/// no dependence on scheduling, threads or machine.
pub proof fn lemma_hash_deterministic(
    a: Argon2,
    tau: nat,
    p: Seq<u8>,
    s: Seq<u8>,
    k: Seq<u8>,
    x: Seq<u8>,
    out1: Seq<u8>,
    out2: Seq<u8>,
)
    requires
        out1 == spec_hash(a, tau, p, s, k, x),
        out2 == spec_hash(a, tau, p, s, k, x),
    ensures
        out1 == out2,
{
}

} // verus!
