//! Recovery of the content key and vector of an AAX file from its ADRM
//! region and the activation secret.

use crate::crypto::{aes128_cbc_decrypt, cbc_decrypt, sha1, sha1_of};
use crate::error::{Error, HexError};
use crate::hexcode::{
    hex_decode, hex_encode, lemma_hex_round_trip, spec_hex_decode, spec_hex_encode,
};
use crate::stream::{append_bytes, ByteStream};
use vstd::pervasive::unreached;
use vstd::prelude::*;
use vstd::slice::{slice_subrange, slice_to_vec};
use vstd::string::{StrSliceExecFns, StringExecFns};
use vstd::utf8::encode_utf8;

verus! {

/// The vendor's key, the same for every file.
pub const FIXED_KEY: [u8; 16] = [
    0x77, 0x21, 0x4d, 0x4b, 0x19, 0x6a, 0x87, 0xcd, 0x52, 0x00, 0x45, 0xfd, 0x20, 0xa5, 0x1d, 0x67,
];

/// Where the encrypted key envelope starts, and how long it is.
pub const ADRM_START: u64 = 0x251;

pub const ADRM_LENGTH: u64 = 56;

/// Where the checksum of the working key starts, and how long it is.
pub const CKSM_START: u64 = 0x28d;

pub const CKSM_LENGTH: u64 = 20;

/// Why no key could be derived.
#[derive(Debug, Clone, Copy, PartialEq, Eq, Structural)]
pub enum DerivationError {
    /// The file ends before the ADRM region or the checksum does.
    Io,
    /// The secret is wrong, or the file is corrupt.
    CredentialMismatch,
    /// The secret is not valid hexadecimal.
    Hex(HexError),
}

impl DerivationError {
    /// The same failure in the crate's general taxonomy.
    pub open spec fn spec_to_error(self) -> Error {
        match self {
            DerivationError::Io => Error::Io,
            DerivationError::CredentialMismatch => Error::CredentialMismatch,
            DerivationError::Hex(_) => Error::HexDecode,
        }
    }

    pub fn to_error(self) -> (e: Error)
        ensures
            e == self.spec_to_error(),
    {
        match self {
            DerivationError::Io => Error::Io,
            DerivationError::CredentialMismatch => Error::CredentialMismatch,
            DerivationError::Hex(_) => Error::HexDecode,
        }
    }
}

/// The parts of `parts`, one after the other.
pub open spec fn concat(parts: Seq<&[u8]>) -> Seq<u8>
    decreases parts.len(),
{
    if parts.len() == 0 {
        Seq::empty()
    } else {
        concat(parts.drop_last()) + parts.last()@
    }
}

/// `data` followed by `n` bytes of value `n`, where `n` in `1..=16` brings
/// the length to a multiple of sixteen.
pub open spec fn spec_pad_16(data: Seq<u8>) -> Seq<u8> {
    let n = 16 - data.len() % 16;
    data + Seq::new(n as nat, |i: int| n as u8)
}

/// The two-character chunks of `s`, counted from its start, in reverse
/// order. A last chunk of one character comes first.
pub open spec fn spec_swap_endian(s: Seq<char>) -> Seq<char>
    decreases s.len(),
{
    if s.len() <= 2 {
        s
    } else {
        spec_swap_endian(s.skip(2)) + s.take(2)
    }
}

/// The key under which the ADRM region is encrypted.
pub open spec fn work_key(secret: Seq<u8>) -> Seq<u8> {
    sha1(FIXED_KEY@ + secret).take(16)
}

/// The vector under which the ADRM region is encrypted.
pub open spec fn work_iv(secret: Seq<u8>) -> Seq<u8> {
    sha1(FIXED_KEY@ + sha1(FIXED_KEY@ + secret) + secret).take(16)
}

/// The first four decrypted bytes as the secret they echo.
pub open spec fn echoed_secret(decrypted: Seq<u8>) -> Seq<char> {
    spec_swap_endian(spec_hex_encode(decrypted.take(4)))
}

/// Key and vector of the file, cut from the decrypted ADRM block.
pub open spec fn spec_file_key_iv(decrypted: Seq<u8>) -> (Seq<u8>, Seq<u8>) {
    let key = decrypted.subrange(8, 24);
    let drm = decrypted.subrange(26, 42);
    (key, sha1(drm + key + FIXED_KEY@).take(16))
}

/// What key derivation gives for a file with the bytes `data` and the
/// secret `secret`.
pub open spec fn spec_derive_key_iv(data: Seq<u8>, secret: Seq<char>) -> Result<
    (Seq<u8>, Seq<u8>),
    DerivationError,
> {
    match spec_hex_decode(encode_utf8(secret)) {
        Err(e) => Err(DerivationError::Hex(e)),
        Ok(raw) => {
            let checksum = data.subrange(CKSM_START as int, CKSM_START + CKSM_LENGTH);
            let decrypted = decrypted_adrm(data, raw);
            if data.len() < CKSM_START + CKSM_LENGTH {
                Err(DerivationError::Io)
            } else if sha1(work_key(raw) + work_iv(raw)) != checksum {
                Err(DerivationError::CredentialMismatch)
            } else if echoed_secret(decrypted) != secret {
                Err(DerivationError::CredentialMismatch)
            } else {
                Ok(spec_file_key_iv(decrypted))
            }
        },
    }
}

/// The ADRM block of the file `data` as the secret with the bytes `raw`
/// decrypts it.
pub open spec fn decrypted_adrm(data: Seq<u8>, raw: Seq<u8>) -> Seq<u8> {
    aes128_cbc_decrypt(
        work_key(raw),
        work_iv(raw),
        spec_pad_16(data.subrange(ADRM_START as int, ADRM_START + ADRM_LENGTH)),
    )
}

/// With a well-formed secret and a file long enough, derivation fails in
/// one way only, as a credential mismatch, and does so exactly where the
/// checksum in the file is not that of the working key or the file does not
/// echo the secret.
pub proof fn lemma_credential_mismatch(data: Seq<u8>, secret: Seq<char>)
    requires
        spec_hex_decode(encode_utf8(secret)) is Ok,
        data.len() >= CKSM_START + CKSM_LENGTH,
    ensures
        ({
            let raw = spec_hex_decode(encode_utf8(secret))->Ok_0;
            let matches = {
                &&& sha1(work_key(raw) + work_iv(raw)) == data.subrange(
                    CKSM_START as int,
                    CKSM_START + CKSM_LENGTH,
                )
                &&& echoed_secret(decrypted_adrm(data, raw)) == secret
            };
            &&& matches ==> spec_derive_key_iv(data, secret) is Ok
            &&& !matches ==> spec_derive_key_iv(data, secret) == Err::<
                (Seq<u8>, Seq<u8>),
                DerivationError,
            >(DerivationError::CredentialMismatch)
        }),
{
}

/// Derivation reads the ADRM region and the checksum and nothing else: two
/// files that agree on both give the same.
pub proof fn lemma_derivation_reads_two_regions(a: Seq<u8>, b: Seq<u8>, secret: Seq<char>)
    requires
        a.len() >= CKSM_START + CKSM_LENGTH,
        b.len() >= CKSM_START + CKSM_LENGTH,
        a.subrange(ADRM_START as int, ADRM_START + ADRM_LENGTH) == b.subrange(
            ADRM_START as int,
            ADRM_START + ADRM_LENGTH,
        ),
        a.subrange(CKSM_START as int, CKSM_START + CKSM_LENGTH) == b.subrange(
            CKSM_START as int,
            CKSM_START + CKSM_LENGTH,
        ),
    ensures
        spec_derive_key_iv(a, secret) == spec_derive_key_iv(b, secret),
{
}

/// A secret that was written out from its bytes is well formed: derivation
/// does not fail on its text.
pub proof fn lemma_encoded_secret_is_well_formed(data: Seq<u8>, raw: Seq<u8>)
    ensures
        !(spec_derive_key_iv(data, spec_hex_encode(raw)) matches Err(DerivationError::Hex(_))),
{
    lemma_hex_round_trip(raw);
}

/// Changing any one byte of the checksum of a file whose key can be derived
/// makes the derivation fail as a credential mismatch.
pub proof fn lemma_flipped_checksum_byte(data: Seq<u8>, secret: Seq<char>, i: int, byte: u8)
    requires
        spec_derive_key_iv(data, secret) is Ok,
        CKSM_START <= i < CKSM_START + CKSM_LENGTH,
        byte != data[i],
    ensures
        spec_derive_key_iv(data.update(i, byte), secret) == Err::<
            (Seq<u8>, Seq<u8>),
            DerivationError,
        >(DerivationError::CredentialMismatch),
{
    let changed = data.update(i, byte);
    let before = data.subrange(CKSM_START as int, CKSM_START + CKSM_LENGTH);
    let after = changed.subrange(CKSM_START as int, CKSM_START + CKSM_LENGTH);
    assert(before[i - CKSM_START] == data[i]);
    assert(after[i - CKSM_START] == byte);
}

/// Whether two byte strings are equal.
pub fn bytes_equal(a: &[u8], b: &[u8]) -> (r: bool)
    ensures
        r == (a@ == b@),
{
    if a.len() != b.len() {
        return false;
    }
    let mut i: usize = 0;
    while i < a.len()
        invariant
            i <= a.len(),
            a.len() == b.len(),
            forall|j: int| 0 <= j < i ==> a@[j] == b@[j],
        decreases a.len() - i,
    {
        if a[i] != b[i] {
            return false;
        }
        i += 1;
    }
    assert(a@ =~= b@);
    true
}

/// The SHA-1 digest of the parts of `data` taken as one message.
pub fn sha1_digest(data: &[&[u8]]) -> (r: Vec<u8>)
    ensures
        r@ == sha1(concat(data@)),
        r@.len() == 20,
{
    let mut message: Vec<u8> = Vec::new();
    let mut i: usize = 0;
    while i < data.len()
        invariant
            i <= data.len(),
            message@ == concat(data@.take(i as int)),
        decreases data.len() - i,
    {
        assert(data@.take(i + 1).drop_last() =~= data@.take(i as int));
        append_bytes(&mut message, data[i]);
        i += 1;
    }
    assert(data@.take(i as int) =~= data@);
    sha1_of(message.as_slice())
}

/// Pads `data` to the next multiple of sixteen bytes; a length that is one
/// already gets a whole block.
pub fn pad_16(data: &[u8]) -> (r: Vec<u8>)
    ensures
        r@ == spec_pad_16(data@),
{
    let len: usize = 16 - (data.len() % 16);
    let mut padded: Vec<u8> = slice_to_vec(data);
    let mut i: usize = 0;
    while i < len
        invariant
            i <= len <= 16,
            padded@ == data@ + Seq::new(i as nat, |j: int| len as u8),
        decreases len - i,
    {
        padded.push(len as u8);
        assert(padded@ =~= data@ + Seq::new((i + 1) as nat, |j: int| len as u8));
        i += 1;
    }
    padded
}

/// Reverses the order of the two-character chunks of `hex_str`.
pub fn swap_endian(hex_str: &str) -> (r: String)
    ensures
        r@ == spec_swap_endian(hex_str@),
{
    let n: usize = hex_str.unicode_len();
    let mut out: String = String::new();
    let mut end: usize = n;
    if n % 2 == 1 {
        out.append(hex_str.substring_char(n - 1, n));
        end = n - 1;
    }
    proof {
        lemma_swap_endian_tail(hex_str@, end as int);
    }
    while end > 0
        invariant
            end <= n,
            end % 2 == 0,
            n == hex_str@.len(),
            spec_swap_endian(hex_str@) == out@ + spec_swap_endian(hex_str@.take(end as int)),
        decreases end,
    {
        proof {
            lemma_swap_endian_last_chunk(hex_str@.take(end as int));
            assert(hex_str@.take(end as int).take(end - 2) =~= hex_str@.take(end - 2));
            assert(hex_str@.take(end as int).skip(end - 2) =~= hex_str@.subrange(
                end - 2,
                end as int,
            ));
        }
        out.append(hex_str.substring_char(end - 2, end));
        end = end - 2;
    }
    assert(hex_str@.take(0) =~= Seq::<char>::empty());
    assert(out@ + Seq::<char>::empty() =~= out@);
    out
}

/// Holds the decrypted ADRM block against the file's checksum and against
/// the secret, and cuts the file key and the sixteen bytes its vector is
/// derived from out of the block.
pub fn verify_credentials(
    decrypted: &[u8],
    derived_checksum: &[u8],
    real_checksum: &[u8],
    activation_bytes: &str,
) -> (r: Result<(Vec<u8>, Vec<u8>), DerivationError>)
    requires
        decrypted@.len() == 64,
    ensures
        match r {
            Ok((key, drm)) => {
                &&& derived_checksum@ == real_checksum@
                &&& echoed_secret(decrypted@) == activation_bytes@
                &&& key@ == decrypted@.subrange(8, 24)
                &&& drm@ == decrypted@.subrange(26, 42)
            },
            Err(e) => {
                &&& e == DerivationError::CredentialMismatch
                &&& (derived_checksum@ != real_checksum@ || echoed_secret(decrypted@)
                    != activation_bytes@)
            },
        },
{
    if !bytes_equal(derived_checksum, real_checksum) {
        return Err(DerivationError::CredentialMismatch);
    }
    let real_bytes: String = swap_endian(hex_encode(slice_subrange(decrypted, 0, 4)).as_str());
    assert(decrypted@.subrange(0, 4) =~= decrypted@.take(4));
    if real_bytes != activation_bytes.to_owned() {
        return Err(DerivationError::CredentialMismatch);
    }
    let file_key: Vec<u8> = slice_to_vec(slice_subrange(decrypted, 8, 24));
    let file_drm: Vec<u8> = slice_to_vec(slice_subrange(decrypted, 26, 42));
    Ok((file_key, file_drm))
}

/// Derives key and vector of the file in `in_stream` from the activation
/// secret, given in hexadecimal. The stream is left as it was found.
pub fn derive_key_iv(in_stream: &mut ByteStream, activation_bytes: &str) -> (r: Result<
    (Vec<u8>, Vec<u8>),
    DerivationError,
>)
    ensures
        *final(in_stream) == *old(in_stream),
        match r {
            Ok((key, iv)) => {
                &&& spec_derive_key_iv(old(in_stream).data@, activation_bytes@) == Ok::<
                    (Seq<u8>, Seq<u8>),
                    DerivationError,
                >((key@, iv@))
                &&& key@.len() == 16
                &&& iv@.len() == 16
            },
            Err(e) => spec_derive_key_iv(old(in_stream).data@, activation_bytes@) == Err::<
                (Seq<u8>, Seq<u8>),
                DerivationError,
            >(e),
        },
{
    let file_start: u64 = in_stream.position();
    let secret = match hex_decode(activation_bytes.as_bytes()) {
        Ok(secret) => secret,
        Err(e) => {
            return Err(DerivationError::Hex(e));
        },
    };
    let secret: &[u8] = secret.as_slice();
    let fixed: &[u8] = FIXED_KEY.as_slice();
    let im_key = sha1_digest([fixed, secret].as_slice());
    let im_key: &[u8] = im_key.as_slice();
    let iv = sha1_digest([fixed, im_key, secret].as_slice());
    let key: &[u8] = slice_subrange(im_key, 0, 16);
    let iv_16: &[u8] = slice_subrange(iv.as_slice(), 0, 16);
    proof {
        lemma_concat_2(fixed, secret);
        lemma_concat_3(fixed, im_key, secret);
        assert(key@ =~= work_key(secret@));
        assert(iv_16@ =~= work_iv(secret@));
    }

    in_stream.set_position(ADRM_START);
    let adrm_data = match in_stream.read_exact(ADRM_LENGTH) {
        Ok(adrm_data) => adrm_data,
        Err(_) => {
            in_stream.set_position(file_start);
            return Err(DerivationError::Io);
        },
    };
    let padded_adrm = pad_16(adrm_data.as_slice());
    let decrypted_adrm = match cbc_decrypt(key, iv_16, padded_adrm.as_slice()) {
        Some(decrypted_adrm) => decrypted_adrm,
        None => unreached(),
    };

    in_stream.set_position(CKSM_START);
    let real_checksum = match in_stream.read_exact(CKSM_LENGTH) {
        Ok(real_checksum) => real_checksum,
        Err(_) => {
            in_stream.set_position(file_start);
            return Err(DerivationError::Io);
        },
    };
    in_stream.set_position(file_start);
    proof {
        let data = old(in_stream).data@;
        assert(adrm_data@ =~= data.subrange(ADRM_START as int, ADRM_START + ADRM_LENGTH));
        assert(real_checksum@ =~= data.subrange(CKSM_START as int, CKSM_START + CKSM_LENGTH));
    }

    let derived_checksum = sha1_digest([key, iv_16].as_slice());
    proof {
        lemma_concat_2(key, iv_16);
    }
    let (file_key, file_drm) = match verify_credentials(
        decrypted_adrm.as_slice(),
        derived_checksum.as_slice(),
        real_checksum.as_slice(),
        activation_bytes,
    ) {
        Ok(parts) => parts,
        Err(e) => {
            return Err(e);
        },
    };
    let in_vect = {
        let drm: &[u8] = file_drm.as_slice();
        let key: &[u8] = file_key.as_slice();
        proof {
            lemma_concat_3(drm, key, fixed);
        }
        sha1_digest([drm, key, fixed].as_slice())
    };
    let file_iv: Vec<u8> = slice_to_vec(slice_subrange(in_vect.as_slice(), 0, 16));
    assert(file_iv@ =~= in_vect@.take(16));
    Ok((file_key, file_iv))
}

/// Two parts taken as one message.
proof fn lemma_concat_2(a: &[u8], b: &[u8])
    ensures
        concat(seq![a, b]) == a@ + b@,
{
    let parts = seq![a, b];
    assert(parts.drop_last() =~= seq![a]);
    assert(seq![a].drop_last() =~= Seq::<&[u8]>::empty());
    assert(concat(Seq::<&[u8]>::empty()) =~= Seq::<u8>::empty());
    assert(concat(seq![a]) =~= Seq::<u8>::empty() + a@);
    assert(concat(seq![a]) =~= a@);
}

/// Three parts taken as one message.
proof fn lemma_concat_3(a: &[u8], b: &[u8], c: &[u8])
    ensures
        concat(seq![a, b, c]) == a@ + b@ + c@,
{
    lemma_concat_2(a, b);
    assert(seq![a, b, c].drop_last() =~= seq![a, b]);
}

/// With an odd number of characters the last one comes first; with an even
/// number nothing is set apart.
proof fn lemma_swap_endian_tail(s: Seq<char>, end: int)
    requires
        end == s.len() - s.len() % 2,
    ensures
        spec_swap_endian(s) == s.skip(end) + spec_swap_endian(s.take(end)),
    decreases s.len(),
{
    if s.len() <= 2 {
        if s.len() == 1 {
            assert(s.take(0) =~= Seq::<char>::empty());
            assert(s.skip(0) + Seq::<char>::empty() =~= s);
        } else {
            assert(s.take(end) =~= s);
            assert(s.skip(end) + s =~= s);
        }
    } else {
        let t = s.skip(2);
        lemma_swap_endian_tail(t, end - 2);
        assert(t.skip(end - 2) =~= s.skip(end));
        if end - 2 == 0 {
            assert(t.take(0) =~= Seq::<char>::empty());
            assert(s.take(end) =~= s.take(2));
            assert(s.skip(end) + Seq::<char>::empty() + s.take(2) =~= s.skip(end) + s.take(2));
        } else {
            assert(s.take(end).skip(2) =~= t.take(end - 2));
            assert(s.take(end).take(2) =~= s.take(2));
            assert(s.skip(end) + spec_swap_endian(t.take(end - 2)) + s.take(2) =~= s.skip(end) + (
            spec_swap_endian(t.take(end - 2)) + s.take(2)));
        }
    }
}

/// Of an even number of characters the last two come first.
proof fn lemma_swap_endian_last_chunk(s: Seq<char>)
    requires
        s.len() >= 2,
        s.len() % 2 == 0,
    ensures
        spec_swap_endian(s) == s.skip(s.len() - 2) + spec_swap_endian(s.take(s.len() - 2)),
    decreases s.len(),
{
    let n = s.len() as int;
    if n == 2 {
        assert(s.skip(0) =~= s);
        assert(s.take(0) =~= Seq::<char>::empty());
        assert(s + Seq::<char>::empty() =~= s);
    } else {
        let t = s.skip(2);
        lemma_swap_endian_last_chunk(t);
        assert(t.skip(n - 4) =~= s.skip(n - 2));
        if n == 4 {
            assert(t.take(0) =~= Seq::<char>::empty());
            assert(s.take(2).take(2) =~= s.take(2));
            assert(s.skip(2) + Seq::<char>::empty() + s.take(2) =~= s.skip(2) + s.take(2));
        } else {
            assert(s.take(n - 2).skip(2) =~= t.take(n - 4));
            assert(s.take(n - 2).take(2) =~= s.take(2));
            assert(s.skip(n - 2) + spec_swap_endian(t.take(n - 4)) + s.take(2) =~= s.skip(n - 2)
                + (spec_swap_endian(t.take(n - 4)) + s.take(2)));
        }
    }
}

} // verus!
