//! The functions of other crates that this crate relies on.

use vstd::prelude::*;

use crate::binary::{Byte32, lower_hex};

verus! {

/// The digest that [`ckb_hash::blake2b_256`] gives of a sequence of bytes.
pub uninterp spec fn blake2b_digest(data: Seq<u8>) -> Seq<u8>;

/// Calls [`ckb_hash::blake2b_256`]: blake2b with a digest of 32 bytes and the
/// personalization of the chain. The digest depends on the bytes alone; what it is
/// is left open.
#[verifier::external_body]
pub(crate) fn blake2b_256(data: &[u8]) -> (res: [u8; 32])
    ensures
        res@ == blake2b_digest(data@),
{
    ckb_hash::blake2b_256(data)
}

/// Calls `new` and `raw_data` of [`ckb_types::packed::Byte32`]: the bytes of a packed
/// array of 32 bytes are the bytes that it was made from.
#[verifier::external_body]
pub(crate) fn raw_data(hash: &Byte32) -> (res: Vec<u8>)
    ensures
        res@ == hash@,
{
    ckb_types::packed::Byte32::new(hash.0).raw_data().to_vec()
}

/// Calls [`faster_hex::hex_string`]: two digits for each byte, the high half first, in
/// lower case. Longer inputs than are admitted here would need a string that cannot
/// be allocated.
#[verifier::external_body]
pub(crate) fn hex_string(src: &[u8]) -> (res: String)
    requires
        src@.len() * 2 <= isize::MAX,
    ensures
        res@ == lower_hex(src@),
{
    faster_hex::hex_string(src)
}

} // verus!
