//! Content identity.
//!
//! Whole-file checksums give mod packages a stable identity; the digest
//! itself comes from the `md5` crate behind a trusted wrapper.

use vstd::prelude::*;

use crate::errors::FsError;
use crate::text::path_view;
use crate::tree::FsTree;

verus! {

/// The 32 lowercase hex digits of the 128-bit digest of a byte string,
/// a function of the bytes alone.
pub uninterp spec fn md5_hex_of(data: Seq<u8>) -> Seq<u8>;

/// A decimal digit or a lowercase hex letter.
pub open spec fn is_lower_hex_digit(b: u8) -> bool {
    (48 <= b <= 57) || (97 <= b <= 102)
}

/// Relies on `md5::compute` and the `LowerHex` rendering of its digest:
/// 32 lowercase hex digits computed from the input bytes alone.
#[verifier::external_body]
fn md5_hex(data: &Vec<u8>) -> (r: Vec<u8>)
    ensures
        r@ == md5_hex_of(data@),
        r@.len() == 32,
        forall|i: int| 0 <= i < r@.len() ==> is_lower_hex_digit(#[trigger] r@[i]),
{
    format!("{:x}", md5::compute(data.as_slice())).into_bytes()
}

/// Computes the content digest of the file at `path`.
pub fn checksum(fs: &FsTree, path: &Vec<Vec<u8>>) -> (r: Result<Vec<u8>, FsError>)
    requires
        fs.inv(),
    ensures
        match r {
            Ok(h) => fs@.files.dom().contains(path_view(path@)) && h@ == md5_hex_of(
                fs@.files[path_view(path@)],
            ) && h@.len() == 32 && forall|i: int|
                0 <= i < h@.len() ==> is_lower_hex_digit(#[trigger] h@[i]),
            Err(e) => !fs@.files.dom().contains(path_view(path@)) && ((e == FsError::NotAFile)
                <==> fs@.dirs.contains(path_view(path@))) && ((e == FsError::NotFound)
                <==> !fs@.dirs.contains(path_view(path@))),
        },
{
    match fs.read_file(path) {
        Ok(b) => Ok(md5_hex(&b)),
        Err(e) => Err(e),
    }
}

} // verus!
