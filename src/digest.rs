use soroban_sdk::Env;
use vstd::prelude::*;

verus! {

#[verifier::external_type_specification]
#[verifier::external_body]
pub struct ExEnv(Env);

/// The SHA-256 digest of a byte string, as the host computes it.
pub uninterp spec fn sha256_of(data: Seq<u8>) -> Seq<u8>;

/// Relies on soroban_sdk's `Crypto::sha256` (through `Bytes::from_slice`):
/// the host's SHA-256 digest of the bytes, which is 32 bytes long.
#[verifier::external_body]
pub(crate) fn sha256(env: &Env, data: &Vec<u8>) -> (r: Vec<u8>)
    ensures
        r@ == sha256_of(data@),
        r@.len() == 32,
{
    let bytes = soroban_sdk::Bytes::from_slice(env, data.as_slice());
    env.crypto().sha256(&bytes).to_array().to_vec()
}

/// The big-endian value of the first eight bytes of `d`.
pub open spec fn word_of(d: Seq<u8>) -> int {
    d[0] as int * 0x100000000000000 + d[1] as int * 0x1000000000000 + d[2] as int * 0x10000000000
        + d[3] as int * 0x100000000 + d[4] as int * 0x1000000 + d[5] as int * 0x10000
        + d[6] as int * 0x100 + d[7] as int
}

/// Reads the first eight bytes of `d` as a big-endian integer.
pub fn word_from_bytes(d: &Vec<u8>) -> (r: u64)
    requires
        d@.len() >= 8,
    ensures
        r as int == word_of(d@),
{
    d[0] as u64 * 0x100000000000000 + d[1] as u64 * 0x1000000000000 + d[2] as u64 * 0x10000000000
        + d[3] as u64 * 0x100000000 + d[4] as u64 * 0x1000000 + d[5] as u64 * 0x10000
        + d[6] as u64 * 0x100 + d[7] as u64
}

} // verus!
