use aax_decrypter::atom::{AAVD_ATOM_TYPE, FTYP_ATOM_TYPE, MDAT_ATOM_TYPE, MP4A_ATOM_TYPE};
use aax_decrypter::decrypt::{process_file, FTYP_TAGS};
use aax_decrypter::download::{AaxcDownloadConvertBase, DownloadOptions, FileType, KeyData};
use aax_decrypter::error::Error;
use aax_decrypter::stream::ByteStream;
use cbc::cipher::block_padding::{NoPadding, Pkcs7};
use cbc::cipher::{BlockEncryptMut, KeyIvInit};

type Aes128CbcEnc = cbc::Encryptor<aes::Aes128>;

struct MockDownloadOptions {
    keys: Vec<KeyData>,
    file_type: FileType,
}

impl DownloadOptions for MockDownloadOptions {
    fn decryption_keys(&self) -> Option<&[KeyData]> {
        Some(&self.keys)
    }
    fn input_type(&self) -> FileType {
        self.file_type
    }
    fn strip_unabridged(&self) -> bool {
        false
    }
    fn fixup_file(&self) -> bool {
        false
    }
    fn title(&self) -> &str {
        "title"
    }
    fn subtitle(&self) -> Option<&str> {
        None
    }
    fn publisher(&self) -> Option<&str> {
        None
    }
    fn language(&self) -> Option<&str> {
        None
    }
    fn audible_product_id(&self) -> Option<&str> {
        None
    }
    fn series_name(&self) -> Option<&str> {
        None
    }
    fn series_number(&self) -> Option<&str> {
        None
    }
}

fn key() -> Vec<u8> {
    hex::decode("0102030405060708090a0b0c0d0e0f10").unwrap()
}

fn iv() -> Vec<u8> {
    hex::decode("100f0e0d0c0b0a090807060504030201").unwrap()
}

fn encrypt(plain: &[u8]) -> Vec<u8> {
    Aes128CbcEnc::new_from_slices(&key(), &iv()).unwrap().encrypt_padded_vec_mut::<NoPadding>(plain)
}

fn boxed(atom_type: u32, payload: &[u8]) -> Vec<u8> {
    let mut bytes = Vec::new();
    bytes.extend_from_slice(&(8 + payload.len() as u32).to_be_bytes());
    bytes.extend_from_slice(&atom_type.to_be_bytes());
    bytes.extend_from_slice(payload);
    bytes
}

fn replacement() -> Vec<u8> {
    vec![
        0, 0, 0, 32, b'f', b't', b'y', b'p', b'M', b'4', b'A', b' ', 0, 0, 2, 0, b'i', b's', b'o',
        b'2', b'M', b'4', b'B', b' ', b'm', b'p', b'4', b'2', b'i', b's', b'o', b'm',
    ]
}

fn run(input: Vec<u8>) -> Result<Vec<u8>, Error> {
    let mut in_stream = ByteStream::new(input.clone());
    let mut out = Vec::new();
    let r = process_file(&mut in_stream, &mut out, &key(), &iv());
    assert_eq!(in_stream.get_ref(), &input);
    match r {
        Ok(()) => {
            assert_eq!(in_stream.position(), input.len() as u64);
            Ok(out)
        }
        Err(e) => {
            assert_eq!(out, Vec::<u8>::new());
            assert_eq!(in_stream.position(), 0);
            Err(e)
        }
    }
}

#[test]
fn test_process_file_aaxc() {
    let key = hex::decode("0102030405060708090a0b0c0d0e0f10").unwrap();
    let iv = hex::decode("100f0e0d0c0b0a090807060504030201").unwrap();

    let opts = MockDownloadOptions {
        keys: vec![KeyData { key_part1: key.clone(), key_part2: Some(iv.clone()) }],
        file_type: FileType::Aaxc,
    };
    let converter = AaxcDownloadConvertBase::new("/tmp", "/tmp", opts);

    let mut input_data = Vec::new();
    // ftyp atom
    input_data.extend_from_slice(&32u32.to_be_bytes());
    input_data.extend_from_slice(&FTYP_ATOM_TYPE.to_be_bytes());
    input_data.extend_from_slice(&[0; 24]);
    // mdat atom
    let plain_text = "This is a test of the decryption logic.";
    let cipher = Aes128CbcEnc::new_from_slices(&key, &iv).unwrap();
    let encrypted_data = cipher.encrypt_padded_vec_mut::<Pkcs7>(plain_text.as_bytes());
    let mdat_size = 8 + 8 + encrypted_data.len() as u32;
    input_data.extend_from_slice(&mdat_size.to_be_bytes());
    input_data.extend_from_slice(&MDAT_ATOM_TYPE.to_be_bytes());
    // aavd atom
    input_data.extend_from_slice(&(8u32 + encrypted_data.len() as u32).to_be_bytes());
    input_data.extend_from_slice(&AAVD_ATOM_TYPE.to_be_bytes());
    input_data.extend_from_slice(&encrypted_data);

    let mut in_stream = ByteStream::new(input_data);
    let mut out_stream = Vec::new();

    converter.decrypt_to_file(&mut in_stream, &mut out_stream).unwrap();

    let output_data = out_stream;

    // Very basic verification
    assert!(output_data.len() > 0);
    let decrypted_text_with_padding = &output_data[48..];
    let unpadded_len =
        decrypted_text_with_padding.len() - *decrypted_text_with_padding.last().unwrap() as usize;
    let decrypted_text = &decrypted_text_with_padding[..unpadded_len];
    let decrypted_text_str = std::str::from_utf8(decrypted_text).unwrap();
    assert_eq!(decrypted_text_str, plain_text);
}

#[test]
fn compatibility_tags() {
    assert_eq!(
        FTYP_TAGS,
        [0x4D344120, 0x00000200, 0x69736F32, 0x4D344220, 0x6D703432, 0x69736F6D]
    );
}

#[test]
fn one_encrypted_leaf_and_a_trailing_box() {
    let plain: Vec<u8> = (0u8..48).collect();
    let mut input = boxed(FTYP_ATOM_TYPE, &[0xaa; 12]);
    input.extend(boxed(MDAT_ATOM_TYPE, &boxed(AAVD_ATOM_TYPE, &encrypt(&plain))));
    let trailing = boxed(0x66726565, &[1, 2, 3, 4, 5]);
    input.extend(&trailing);

    let out = run(input).unwrap();

    let mut expected = replacement();
    expected.extend(boxed(MDAT_ATOM_TYPE, &boxed(MP4A_ATOM_TYPE, &plain)));
    expected.extend(&trailing);
    assert_eq!(out, expected);
    assert_eq!(&out[..32], &replacement()[..]);
    assert_eq!(&out[out.len() - trailing.len()..], &trailing[..]);
}

#[test]
fn the_replacement_does_not_depend_on_the_old_compatibility_box() {
    for payload_len in [0usize, 1, 24, 100] {
        let input = boxed(FTYP_ATOM_TYPE, &vec![0x3c; payload_len]);
        assert_eq!(run(input).unwrap(), replacement());
    }
    let mut twice = boxed(FTYP_ATOM_TYPE, &[1, 2]);
    twice.extend(boxed(FTYP_ATOM_TYPE, &[]));
    let mut expected = replacement();
    expected.extend(replacement());
    assert_eq!(run(twice).unwrap(), expected);
}

#[test]
fn every_leaf_starts_from_the_same_vector() {
    let plain = [0x42u8; 32];
    let encrypted = encrypt(&plain);
    let mut leaves = boxed(AAVD_ATOM_TYPE, &encrypted);
    leaves.extend(boxed(0x736b6970, &[9, 9, 9]));
    leaves.extend(boxed(AAVD_ATOM_TYPE, &encrypted));
    leaves.extend(boxed(AAVD_ATOM_TYPE, &[]));
    let out = run(boxed(MDAT_ATOM_TYPE, &leaves)).unwrap();

    let mut plain_leaves = boxed(MP4A_ATOM_TYPE, &plain);
    plain_leaves.extend(boxed(0x736b6970, &[9, 9, 9]));
    plain_leaves.extend(boxed(MP4A_ATOM_TYPE, &plain));
    plain_leaves.extend(boxed(MP4A_ATOM_TYPE, &[]));
    assert_eq!(out, boxed(MDAT_ATOM_TYPE, &plain_leaves));
}

#[test]
fn other_boxes_are_copied_with_an_extended_header() {
    let mut input = vec![0, 0, 0, 1, b'f', b'r', b'e', b'e', 0, 0, 0, 0, 0, 0, 0, 19, 7, 8, 9];
    input.extend(boxed(0x75647461, &[]));
    assert_eq!(run(input.clone()).unwrap(), input);
}

#[test]
fn sample_data_with_an_extended_header() {
    let plain = [0x17u8; 16];
    let leaf = boxed(AAVD_ATOM_TYPE, &encrypt(&plain));
    let mut input = vec![0, 0, 0, 1, b'm', b'd', b'a', b't', 0, 0, 0, 0, 0, 0, 0, 40];
    input.extend(&leaf);
    let mut expected = input[..16].to_vec();
    expected.extend(boxed(MP4A_ATOM_TYPE, &plain));
    assert_eq!(run(input).unwrap(), expected);
}

#[test]
fn compatibility_box_with_an_extended_header_is_skipped_whole() {
    let mut input = vec![0, 0, 0, 1, b'f', b't', b'y', b'p', 0, 0, 0, 0, 0, 0, 0, 18, 5, 5];
    let tail = boxed(0x66726565, &[1]);
    input.extend(&tail);
    let mut expected = replacement();
    expected.extend(&tail);
    assert_eq!(run(input).unwrap(), expected);
}

#[test]
fn an_empty_file_gives_an_empty_file() {
    assert_eq!(run(Vec::new()), Ok(Vec::new()));
}

#[test]
fn output_is_appended() {
    let input = boxed(0x66726565, &[1, 2]);
    let mut in_stream = ByteStream::new(input.clone());
    in_stream.set_position(5);
    let mut out = vec![0xde, 0xad];
    process_file(&mut in_stream, &mut out, &key(), &iv()).unwrap();
    let mut expected = vec![0xde, 0xad];
    expected.extend(&input);
    assert_eq!(out, expected);
}

#[test]
fn failure_leaves_both_streams() {
    let mut input = boxed(0x66726565, &[1, 2]);
    input.extend(&[0, 0, 0]);
    let mut in_stream = ByteStream::new(input.clone());
    in_stream.set_position(4);
    let mut out = vec![0xde, 0xad];
    assert_eq!(process_file(&mut in_stream, &mut out, &key(), &iv()), Err(Error::Io));
    assert_eq!(out, vec![0xde, 0xad]);
    assert_eq!(in_stream.position(), 4);
    assert_eq!(in_stream.into_inner(), input);
}

#[test]
fn keys_of_the_wrong_length() {
    let input = boxed(0x66726565, &[1, 2]);
    for (key_len, iv_len) in [(0usize, 16usize), (15, 16), (17, 16), (16, 0), (16, 15), (32, 16)] {
        let mut in_stream = ByteStream::new(input.clone());
        let mut out = Vec::new();
        assert_eq!(
            process_file(&mut in_stream, &mut out, &vec![1; key_len], &vec![2; iv_len]),
            Err(Error::InvalidKeyLength)
        );
        assert_eq!(out, Vec::<u8>::new());
    }
}

#[test]
fn a_header_cut_short() {
    let mut input = boxed(FTYP_ATOM_TYPE, &[0; 4]);
    input.extend(&[0, 0, 0, 16, b'm', b'd', b'a']);
    assert_eq!(run(input), Err(Error::Io));
}

#[test]
fn a_box_that_ends_behind_the_file() {
    for atom_type in [FTYP_ATOM_TYPE, MDAT_ATOM_TYPE, 0x66726565] {
        let mut input = boxed(atom_type, &[0; 8]);
        input.pop();
        assert_eq!(run(input), Err(Error::MalformedContainer));
    }
}

#[test]
fn a_box_shorter_than_its_header() {
    for size in 0u32..8 {
        if size == 1 {
            continue;
        }
        let mut input = size.to_be_bytes().to_vec();
        input.extend(b"free");
        input.extend(&[0; 16]);
        assert_eq!(run(input), Err(Error::MalformedContainer));
    }
}

#[test]
fn an_encrypted_leaf_that_is_no_whole_number_of_blocks() {
    let leaf = boxed(AAVD_ATOM_TYPE, &[0; 17]);
    assert_eq!(run(boxed(MDAT_ATOM_TYPE, &leaf)), Err(Error::MalformedContainer));
    let plain_leaf = boxed(MP4A_ATOM_TYPE, &[0; 17]);
    let input = boxed(MDAT_ATOM_TYPE, &plain_leaf);
    assert_eq!(run(input.clone()), Ok(input));
}

#[test]
fn leaves_must_tile_the_sample_data() {
    // A leaf that ends behind its parent.
    let mut leaf = boxed(0x736b6970, &[1, 2, 3, 4]);
    leaf.pop();
    let mut input = boxed(MDAT_ATOM_TYPE, &leaf);
    input.extend(boxed(0x66726565, &[]));
    assert_eq!(run(input), Err(Error::MalformedContainer));
    // A leaf header cut short by the end of its parent.
    let input = boxed(MDAT_ATOM_TYPE, &[0, 0, 0, 8, b's']);
    assert_eq!(run(input), Err(Error::Io));
    // A leaf shorter than its header.
    let input = boxed(MDAT_ATOM_TYPE, &[0, 0, 0, 4, b's', b'k', b'i', b'p']);
    assert_eq!(run(input), Err(Error::MalformedContainer));
    // No leaves.
    let input = boxed(MDAT_ATOM_TYPE, &[]);
    assert_eq!(run(input.clone()), Ok(input));
}

#[test]
fn unsupported_format_is_rejected_at_once() {
    let opts = MockDownloadOptions { keys: Vec::new(), file_type: FileType::Dash };
    let converter = AaxcDownloadConvertBase::new("out", "cache", opts);
    let mut in_stream = ByteStream::new(vec![1, 2, 3]);
    in_stream.set_position(2);
    let mut out = vec![5];
    assert_eq!(
        converter.decrypt_to_file(&mut in_stream, &mut out),
        Err(Error::UnsupportedFormat)
    );
    assert_eq!(out, vec![5]);
    assert_eq!(in_stream.position(), 2);
}
