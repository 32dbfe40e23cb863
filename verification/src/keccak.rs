use vstd::prelude::*;

use crate::types::FunctionSelector;

verus! {

/// The keccak-256 digest of a byte string. The digest is left abstract:
/// it is a fixed function of the input bytes alone, computed by the
/// outside hasher.
pub uninterp spec fn keccak_of(input: Seq<u8>) -> Seq<u8>;

/// Relies on tiny_keccak's `Keccak::v256` hasher: the 32-byte keccak-256
/// digest of the input, a function of the input bytes alone.
#[verifier::external_body]
fn keccak256_digest(input: &Vec<u8>) -> (r: Vec<u8>)
    ensures
        r@ == keccak_of(input@),
        r@.len() == 32,
{
    let mut output = [0u8; 32];
    let mut hasher = tiny_keccak::Keccak::v256();
    tiny_keccak::Hasher::update(&mut hasher, input.as_slice());
    tiny_keccak::Hasher::finalize(hasher, &mut output);
    output.to_vec()
}

/// The selector taken from the first four bytes of a digest.
pub open spec fn selector_from_digest(d: Seq<u8>) -> FunctionSelector
    recommends
        d.len() >= 4,
{
    FunctionSelector { b0: d[0], b1: d[1], b2: d[2], b3: d[3] }
}

/// The selector of a canonical function signature: the first four bytes of
/// its keccak-256 digest.
pub open spec fn spec_function_selector(sig: Seq<u8>) -> FunctionSelector {
    selector_from_digest(keccak_of(sig))
}

/// Computes the 4-byte selector of a canonical function signature string,
/// given as its bytes.
pub fn function_selector(sig: &Vec<u8>) -> (r: FunctionSelector)
    ensures
        r == spec_function_selector(sig@),
{
    let digest = keccak256_digest(sig);
    FunctionSelector { b0: digest[0], b1: digest[1], b2: digest[2], b3: digest[3] }
}

} // verus!
