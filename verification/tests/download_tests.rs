use aax_decrypter::adrm_key_derivation::FIXED_KEY;
use aax_decrypter::atom::{AAVD_ATOM_TYPE, FTYP_ATOM_TYPE, MDAT_ATOM_TYPE, MP4A_ATOM_TYPE};
use aax_decrypter::download::{
    decrypt_with_keys, AaxcDownloadConvertBase, DownloadOptions, FileType, KeyData,
};
use aax_decrypter::error::Error;
use aax_decrypter::stream::ByteStream;
use aax_decrypter::tags::{AppleListBox, AppleTags, Mp4File};
use cbc::cipher::block_padding::NoPadding;
use cbc::cipher::{BlockEncryptMut, KeyIvInit};
use sha1::{Digest, Sha1};

struct Options {
    keys: Option<Vec<KeyData>>,
    file_type: FileType,
}

impl DownloadOptions for Options {
    fn decryption_keys(&self) -> Option<&[KeyData]> {
        self.keys.as_deref()
    }
    fn input_type(&self) -> FileType {
        self.file_type
    }
    fn strip_unabridged(&self) -> bool {
        true
    }
    fn fixup_file(&self) -> bool {
        false
    }
    fn title(&self) -> &str {
        "A Book"
    }
    fn subtitle(&self) -> Option<&str> {
        None
    }
    fn publisher(&self) -> Option<&str> {
        None
    }
    fn language(&self) -> Option<&str> {
        Some("en")
    }
    fn audible_product_id(&self) -> Option<&str> {
        None
    }
    fn series_name(&self) -> Option<&str> {
        None
    }
    fn series_number(&self) -> Option<&str> {
        None
    }
}

fn sha1_of(parts: &[&[u8]]) -> Vec<u8> {
    let mut hasher = Sha1::new();
    for part in parts {
        hasher.update(part);
    }
    hasher.finalize().to_vec()
}

fn encrypt(key: &[u8], iv: &[u8], plain: &[u8]) -> Vec<u8> {
    cbc::Encryptor::<aes::Aes128>::new_from_slices(key, iv)
        .unwrap()
        .encrypt_padded_vec_mut::<NoPadding>(plain)
}

fn boxed(atom_type: u32, payload: &[u8]) -> Vec<u8> {
    let mut bytes = Vec::new();
    bytes.extend_from_slice(&(8 + payload.len() as u32).to_be_bytes());
    bytes.extend_from_slice(&atom_type.to_be_bytes());
    bytes.extend_from_slice(payload);
    bytes
}

const SECRET: [u8; 4] = [0xde, 0xad, 0xbe, 0xef];
const AUDIO: [u8; 32] = [0x5a; 32];

fn file_key() -> Vec<u8> {
    (1u8..17).collect()
}

fn file_drm() -> Vec<u8> {
    (101u8..117).collect()
}

/// An AAX file: a first box that spans the ADRM region and the checksum,
/// then the sample data with one encrypted leaf.
fn aax_file() -> Vec<u8> {
    let im_key = sha1_of(&[&FIXED_KEY, &SECRET]);
    let im_iv = sha1_of(&[&FIXED_KEY, &im_key, &SECRET]);
    let mut plain = vec![0u8; 48];
    plain[..4].copy_from_slice(&[0xef, 0xbe, 0xad, 0xde]);
    plain[8..24].copy_from_slice(&file_key());
    plain[26..42].copy_from_slice(&file_drm());
    let mut file = boxed(FTYP_ATOM_TYPE, &[0; 0x300 - 8]);
    file[0x251..0x251 + 48].copy_from_slice(&encrypt(&im_key[..16], &im_iv[..16], &plain));
    file[0x28d..0x28d + 20].copy_from_slice(&sha1_of(&[&im_key[..16], &im_iv[..16]]));
    let iv = sha1_of(&[&file_drm(), &file_key(), &FIXED_KEY]);
    let leaf = boxed(AAVD_ATOM_TYPE, &encrypt(&file_key(), &iv[..16], &AUDIO));
    file.extend(boxed(MDAT_ATOM_TYPE, &leaf));
    file
}

fn plain_file() -> Vec<u8> {
    let mut expected = vec![
        0, 0, 0, 32, b'f', b't', b'y', b'p', b'M', b'4', b'A', b' ', 0, 0, 2, 0, b'i', b's', b'o',
        b'2', b'M', b'4', b'B', b' ', b'm', b'p', b'4', b'2', b'i', b's', b'o', b'm',
    ];
    expected.extend(boxed(MDAT_ATOM_TYPE, &boxed(MP4A_ATOM_TYPE, &AUDIO)));
    expected
}

#[test]
fn aax_derives_the_key_from_the_secret() {
    let opts = Options {
        keys: Some(vec![KeyData { key_part1: SECRET.to_vec(), key_part2: None }]),
        file_type: FileType::Aax,
    };
    let converter = AaxcDownloadConvertBase::new("out", "cache", opts);
    let mut in_stream = ByteStream::new(aax_file());
    let mut out = Vec::new();
    assert_eq!(converter.decrypt_to_file(&mut in_stream, &mut out), Ok(()));
    assert_eq!(out, plain_file());
    assert_eq!(in_stream.position(), in_stream.len());
    assert_eq!(in_stream.into_inner(), aax_file());
}

#[test]
fn aax_with_the_wrong_secret() {
    let keys = [KeyData { key_part1: vec![0xde, 0xad, 0xbe, 0xee], key_part2: None }];
    let mut in_stream = ByteStream::new(aax_file());
    in_stream.set_position(9);
    let mut out = vec![1];
    assert_eq!(
        decrypt_with_keys(FileType::Aax, Some(&keys), &mut in_stream, &mut out),
        Err(Error::CredentialMismatch)
    );
    assert_eq!(out, vec![1]);
    assert_eq!(in_stream.position(), 9);
}

#[test]
fn aax_with_a_short_file() {
    let keys = [KeyData { key_part1: SECRET.to_vec(), key_part2: None }];
    let mut in_stream = ByteStream::new(aax_file()[..0x2a0].to_vec());
    let mut out = Vec::new();
    assert_eq!(
        decrypt_with_keys(FileType::Aax, Some(&keys), &mut in_stream, &mut out),
        Err(Error::Io)
    );
}

#[test]
fn aaxc_uses_key_and_vector_as_given() {
    let iv = sha1_of(&[&file_drm(), &file_key(), &FIXED_KEY])[..16].to_vec();
    let keys = [
        KeyData { key_part1: file_key(), key_part2: Some(iv) },
        KeyData { key_part1: vec![0; 16], key_part2: None },
    ];
    let mut in_stream = ByteStream::new(aax_file());
    let mut out = Vec::new();
    assert_eq!(decrypt_with_keys(FileType::Aaxc, Some(&keys), &mut in_stream, &mut out), Ok(()));
    assert_eq!(out, plain_file());
}

#[test]
fn keys_are_mandatory() {
    for file_type in [FileType::Aax, FileType::Aaxc] {
        let mut in_stream = ByteStream::new(aax_file());
        let mut out = Vec::new();
        assert_eq!(
            decrypt_with_keys(file_type, None, &mut in_stream, &mut out),
            Err(Error::MissingKey)
        );
        assert_eq!(
            decrypt_with_keys(file_type, Some(&[]), &mut in_stream, &mut out),
            Err(Error::MissingKey)
        );
        let converter =
            AaxcDownloadConvertBase::new("out", "cache", Options { keys: None, file_type });
        assert_eq!(converter.decrypt_to_file(&mut in_stream, &mut out), Err(Error::MissingKey));
        assert_eq!(out, Vec::<u8>::new());
    }
}

#[test]
fn aaxc_needs_a_vector_of_sixteen_bytes() {
    let mut in_stream = ByteStream::new(aax_file());
    let mut out = Vec::new();
    let keys = [KeyData { key_part1: file_key(), key_part2: None }];
    assert_eq!(
        decrypt_with_keys(FileType::Aaxc, Some(&keys), &mut in_stream, &mut out),
        Err(Error::MissingIv)
    );
    let keys = [KeyData { key_part1: file_key(), key_part2: Some(vec![0; 12]) }];
    assert_eq!(
        decrypt_with_keys(FileType::Aaxc, Some(&keys), &mut in_stream, &mut out),
        Err(Error::InvalidKeyLength)
    );
    let keys = [KeyData { key_part1: vec![1; 24], key_part2: Some(vec![0; 16]) }];
    assert_eq!(
        decrypt_with_keys(FileType::Aaxc, Some(&keys), &mut in_stream, &mut out),
        Err(Error::InvalidKeyLength)
    );
}

#[test]
fn dash_is_not_handled() {
    let keys = [KeyData { key_part1: file_key(), key_part2: Some(vec![0; 16]) }];
    let mut in_stream = ByteStream::new(aax_file());
    let mut out = Vec::new();
    assert_eq!(
        decrypt_with_keys(FileType::Dash, Some(&keys), &mut in_stream, &mut out),
        Err(Error::UnsupportedFormat)
    );
    assert_eq!(
        decrypt_with_keys(FileType::Dash, None, &mut in_stream, &mut out),
        Err(Error::UnsupportedFormat)
    );
}

#[test]
fn a_new_converter_holds_what_it_was_given() {
    let opts = Options { keys: None, file_type: FileType::Aaxc };
    let mut converter = AaxcDownloadConvertBase::new("/out", "/cache", opts);
    assert_eq!(converter.out_directory, "/out");
    assert_eq!(converter.cache_directory, "/cache");
    assert_eq!(converter.dl_options.input_type(), FileType::Aaxc);
    assert_eq!(converter.dl_options.title(), "A Book");
    assert_eq!(converter.cover_art, None);
    assert!(!converter.is_canceled);
    assert_eq!(converter.step_get_metadata(), Ok(()));

    converter.set_cover_art(vec![0xff, 0xd8]);
    assert_eq!(converter.cover_art, Some(vec![0xff, 0xd8]));
    assert!(!converter.is_canceled);

    converter.cancel();
    assert!(converter.is_canceled);
    assert_eq!(converter.cover_art, Some(vec![0xff, 0xd8]));
    assert_eq!(converter.out_directory, "/out");
}

#[test]
fn the_tag_list_holds_no_entries() {
    let mut file = Mp4File {
        apple_tags: AppleTags {
            title: "A Book (Unabridged)".to_string(),
            title_sans_unabridged: "A Book".to_string(),
            album: None,
            narrator: Some("N. N.".to_string()),
            copyright: None,
            cover: None,
            asin: Some("B000000000".to_string()),
            apple_list_box: AppleListBox,
        },
    };
    file.apple_tags.apple_list_box.edit_or_add_tag("TIT3", "subtitle");
    file.apple_tags.apple_list_box.edit_or_add_freeform_tag("com.pilabor.tone", "SUBTITLE", "x");
    assert_eq!(file.apple_tags.apple_list_box, AppleListBox);
    assert_eq!(file.apple_tags.title_sans_unabridged, "A Book");
}
