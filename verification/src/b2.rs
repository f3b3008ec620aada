use vstd::prelude::*;

verus! {

/// The BLAKE2b digest of `input` with digest length `outlen` (1..=64 bytes).
///
/// The digest is a pure function of the input bytes and the requested length,
/// so it is given a name here; nothing more is assumed of its value.
pub uninterp spec fn blake2b_of(input: Seq<u8>, outlen: nat) -> Seq<u8>;

/// Relies on `blake2_rfc::blake2b::Blake2b` (`new`, `update`, `finalize`):
/// an unkeyed BLAKE2b digest of exactly `outlen` bytes over the input bytes,
/// depending on nothing but them. `Blake2b::new` panics unless
/// `1 <= outlen <= 64`.
#[verifier::external_body]
pub(crate) fn blake2b(input: &Vec<u8>, outlen: usize) -> (r: Vec<u8>)
    requires
        1 <= outlen <= 64,
    ensures
        r@ == blake2b_of(input@, outlen as nat),
        r@.len() == outlen,
{
    let mut state = blake2_rfc::blake2b::Blake2b::new(outlen);
    state.update(input.as_slice());
    state.finalize().as_bytes().to_vec()
}

} // verus!
