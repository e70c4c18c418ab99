//! The two cryptographic primitives: SHA-1 and AES-128 in CBC mode.

use cbc::cipher::block_padding::NoPadding;
use cbc::cipher::{BlockDecryptMut, KeyIvInit};
use sha1::{Digest, Sha1};
use vstd::prelude::*;

verus! {

/// The SHA-1 digest of `data`: what `sha1::Sha1::digest` returns for it.
pub uninterp spec fn sha1(data: Seq<u8>) -> Seq<u8>;

/// The AES-128-CBC decryption of `data` under `key` and `iv`, no padding
/// removed: what `decrypt_padded_vec_mut::<NoPadding>` returns for `data` on
/// a `cbc::Decryptor<aes::Aes128>` made from `key` and `iv`.
pub uninterp spec fn aes128_cbc_decrypt(key: Seq<u8>, iv: Seq<u8>, data: Seq<u8>) -> Seq<u8>;

/// `sha1::Sha1::digest`: the digest of `data`, which is twenty bytes long.
#[verifier::external_body]
pub(crate) fn sha1_of(data: &[u8]) -> (r: Vec<u8>)
    ensures
        r@ == sha1(data@),
        r@.len() == 20,
{
    Sha1::digest(data).to_vec()
}

/// `cbc::Decryptor::<aes::Aes128>::new_from_slices`, then
/// `decrypt_padded_vec_mut::<NoPadding>` on the cipher it made; the cipher is
/// of no use but for this one call, so the two stand together. The first
/// fails unless key and vector are sixteen bytes each, the second unless the
/// data is a whole number of sixteen-byte blocks. The plaintext is as long as
/// the data.
#[verifier::external_body]
pub(crate) fn cbc_decrypt(key: &[u8], iv: &[u8], data: &[u8]) -> (r: Option<Vec<u8>>)
    ensures
        match r {
            Some(v) => {
                &&& key@.len() == 16
                &&& iv@.len() == 16
                &&& data@.len() % 16 == 0
                &&& v@ == aes128_cbc_decrypt(key@, iv@, data@)
                &&& v@.len() == data@.len()
            },
            None => !(key@.len() == 16 && iv@.len() == 16 && data@.len() % 16 == 0),
        },
{
    let cipher = cbc::Decryptor::<aes::Aes128>::new_from_slices(key, iv).ok()?;
    cipher.decrypt_padded_vec_mut::<NoPadding>(data).ok()
}

} // verus!
