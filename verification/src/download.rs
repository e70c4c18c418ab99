//! The front door: which format a file has, where its key comes from, and
//! the call that decrypts it.

use crate::adrm_key_derivation::{
    derive_key_iv, lemma_encoded_secret_is_well_formed, spec_derive_key_iv,
};
use crate::decrypt::{join, lemma_decrypt_container_errors, process_file, spec_process_file};
use crate::error::Error;
use crate::hexcode::{hex_encode, spec_hex_encode};
use crate::stream::ByteStream;
use vstd::prelude::*;

verus! {

/// The format of the file to decrypt.
#[derive(Debug, Clone, Copy, PartialEq, Eq, Structural)]
pub enum FileType {
    /// Segmented streaming; recognised, not handled.
    Dash,
    /// The key is derived from an activation secret.
    Aax,
    /// Key and vector are given.
    Aaxc,
}

/// Key material as the caller holds it. For `Aax` the first part is the
/// activation secret; for `Aaxc` the first part is the key and the second
/// the vector.
#[derive(Debug, Clone, PartialEq, Eq)]
pub struct KeyData {
    pub key_part1: Vec<u8>,
    pub key_part2: Option<Vec<u8>>,
}

/// What the caller decides about one download.
pub trait DownloadOptions {
    fn decryption_keys(&self) -> Option<&[KeyData]>;

    fn input_type(&self) -> FileType;

    fn strip_unabridged(&self) -> bool;

    fn fixup_file(&self) -> bool;

    fn title(&self) -> &str;

    fn subtitle(&self) -> Option<&str>;

    fn publisher(&self) -> Option<&str>;

    fn language(&self) -> Option<&str>;

    fn audible_product_id(&self) -> Option<&str>;

    fn series_name(&self) -> Option<&str>;

    fn series_number(&self) -> Option<&str>;
}

/// Decrypts downloads according to the caller's options.
pub struct AaxcDownloadConvertBase<T: DownloadOptions> {
    pub out_directory: String,
    pub cache_directory: String,
    pub dl_options: T,
    pub cover_art: Option<Vec<u8>>,
    pub is_canceled: bool,
}

/// The vector of a key, if it has one.
pub open spec fn spec_iv(key: KeyData) -> Option<Seq<u8>> {
    match key.key_part2 {
        Some(iv) => Some(iv@),
        None => None,
    }
}

/// The plain container for the file `input` of the format `file_type`,
/// decrypted with the first of `keys`.
pub open spec fn spec_decrypt(file_type: FileType, keys: Option<Seq<KeyData>>, input: Seq<u8>)
    -> Result<Seq<u8>, Error> {
    match file_type {
        FileType::Dash => Err(Error::UnsupportedFormat),
        FileType::Aax => match keys {
            Some(keys) if keys.len() > 0 => match spec_derive_key_iv(
                input,
                spec_hex_encode(keys[0].key_part1@),
            ) {
                Ok((key, iv)) => spec_process_file(input, key, iv),
                Err(e) => Err(e.spec_to_error()),
            },
            _ => Err(Error::MissingKey),
        },
        FileType::Aaxc => match keys {
            Some(keys) if keys.len() > 0 => match spec_iv(keys[0]) {
                Some(iv) => spec_process_file(input, keys[0].key_part1@, iv),
                None => Err(Error::MissingIv),
            },
            _ => Err(Error::MissingKey),
        },
    }
}

/// Decryption does not fail on the secret as written: what the caller
/// holds is bytes, and their text is well formed.
pub proof fn lemma_secret_is_well_formed(
    file_type: FileType,
    keys: Option<Seq<KeyData>>,
    input: Seq<u8>,
)
    ensures
        spec_decrypt(file_type, keys, input) != Err::<Seq<u8>, Error>(Error::HexDecode),
{
    if let Some(keys) = keys {
        if keys.len() > 0 {
            let key = keys[0];
            lemma_encoded_secret_is_well_formed(input, key.key_part1@);
            match file_type {
                FileType::Aax => {
                    if let Ok((k, iv)) = spec_derive_key_iv(
                        input,
                        spec_hex_encode(key.key_part1@),
                    ) {
                        lemma_decrypt_container_errors(input, k, iv);
                    }
                },
                FileType::Aaxc => {
                    if let Some(iv) = spec_iv(key) {
                        lemma_decrypt_container_errors(input, key.key_part1@, iv);
                    }
                },
                FileType::Dash => {},
            }
        }
    }
}

/// Whether `r`, with the output grown from `before` to `after`, is what
/// decrypting `input` as `file_type` with `keys` gives.
pub open spec fn decrypted_as(
    file_type: FileType,
    keys: Option<Seq<KeyData>>,
    input: Seq<u8>,
    before: Seq<u8>,
    after: Seq<u8>,
    r: Result<(), Error>,
) -> bool {
    match r {
        Ok(()) => join(Ok(before), spec_decrypt(file_type, keys, input)) == Ok::<Seq<u8>, Error>(
            after,
        ),
        Err(e) => spec_decrypt(file_type, keys, input) == Err::<Seq<u8>, Error>(e) && after
            == before,
    }
}

/// The keys as a sequence.
pub open spec fn spec_keys(keys: Option<&[KeyData]>) -> Option<Seq<KeyData>> {
    match keys {
        Some(keys) => Some(keys@),
        None => None,
    }
}

/// Decrypts the file in `in_stream` as `file_type` with the first of `keys`
/// and appends the plain container to `out_stream`. On failure both streams
/// are left as they were found.
pub fn decrypt_with_keys(
    file_type: FileType,
    keys: Option<&[KeyData]>,
    in_stream: &mut ByteStream,
    out_stream: &mut Vec<u8>,
) -> (r: Result<(), Error>)
    ensures
        final(in_stream).data == old(in_stream).data,
        decrypted_as(
            file_type,
            spec_keys(keys),
            old(in_stream).data@,
            old(out_stream)@,
            final(out_stream)@,
            r,
        ),
        final(in_stream).pos == (if r is Ok {
            old(in_stream).data@.len() as u64
        } else {
            old(in_stream).pos
        }),
{
    match file_type {
        FileType::Dash => Err(Error::UnsupportedFormat),
        FileType::Aax => {
            let keys = match keys {
                Some(keys) => keys,
                None => {
                    return Err(Error::MissingKey);
                },
            };
            if keys.len() == 0 {
                return Err(Error::MissingKey);
            }
            let activation_bytes = hex_encode(keys[0].key_part1.as_slice());
            match derive_key_iv(in_stream, activation_bytes.as_str()) {
                Ok((key, iv)) => process_file(in_stream, out_stream, key.as_slice(), iv.as_slice()),
                Err(e) => Err(e.to_error()),
            }
        },
        FileType::Aaxc => {
            let keys = match keys {
                Some(keys) => keys,
                None => {
                    return Err(Error::MissingKey);
                },
            };
            if keys.len() == 0 {
                return Err(Error::MissingKey);
            }
            match &keys[0].key_part2 {
                Some(iv) => process_file(
                    in_stream,
                    out_stream,
                    keys[0].key_part1.as_slice(),
                    iv.as_slice(),
                ),
                None => Err(Error::MissingIv),
            }
        },
    }
}

impl<T: DownloadOptions> AaxcDownloadConvertBase<T> {
    pub fn new(out_directory: &str, cache_directory: &str, dl_options: T) -> (r: Self)
        ensures
            r.out_directory@ == out_directory@,
            r.cache_directory@ == cache_directory@,
            r.dl_options == dl_options,
            r.cover_art is None,
            !r.is_canceled,
    {
        AaxcDownloadConvertBase {
            out_directory: out_directory.to_owned(),
            cache_directory: cache_directory.to_owned(),
            dl_options,
            cover_art: None,
            is_canceled: false,
        }
    }

    pub fn set_cover_art(&mut self, cover_art: Vec<u8>)
        ensures
            final(self).cover_art == Some(cover_art),
            final(self).out_directory == old(self).out_directory,
            final(self).cache_directory == old(self).cache_directory,
            final(self).dl_options == old(self).dl_options,
            final(self).is_canceled == old(self).is_canceled,
    {
        self.cover_art = Some(cover_art);
    }

    /// Marks the conversion as cancelled.
    pub fn cancel(&mut self)
        ensures
            final(self).is_canceled,
            final(self).cover_art == old(self).cover_art,
            final(self).out_directory == old(self).out_directory,
            final(self).cache_directory == old(self).cache_directory,
            final(self).dl_options == old(self).dl_options,
    {
        self.is_canceled = true;
    }

    /// Decrypts the file in `in_stream` and appends the plain container to
    /// `out_stream`. Format and keys are what the options say when asked,
    /// once each; the keys are not asked for where the format is not
    /// handled. On failure both streams are left as they were found.
    pub fn decrypt_to_file(&self, in_stream: &mut ByteStream, out_stream: &mut Vec<u8>) -> (r:
        Result<(), Error>)
        ensures
            final(in_stream).data == old(in_stream).data,
            exists|file_type: FileType, keys: Option<Seq<KeyData>>|
                decrypted_as(
                    file_type,
                    keys,
                    old(in_stream).data@,
                    old(out_stream)@,
                    final(out_stream)@,
                    r,
                ),
            final(in_stream).pos == (if r is Ok {
                old(in_stream).data@.len() as u64
            } else {
                old(in_stream).pos
            }),
    {
        let file_type = self.dl_options.input_type();
        let keys = match file_type {
            FileType::Dash => None,
            _ => self.dl_options.decryption_keys(),
        };
        let r = match decrypt_with_keys(file_type, keys, in_stream, out_stream) {
            Ok(()) => self.step_get_metadata(),
            Err(e) => Err(e),
        };
        assert(decrypted_as(
            file_type,
            spec_keys(keys),
            old(in_stream).data@,
            old(out_stream)@,
            out_stream@,
            r,
        ));
        r
    }

    /// Reads the descriptive metadata of the decrypted file. Nothing is
    /// read yet, so nothing can fail.
    pub fn step_get_metadata(&self) -> (r: Result<(), Error>)
        ensures
            r is Ok,
    {
        Ok(())
    }
}

} // verus!
