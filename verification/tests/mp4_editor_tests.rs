use aax_decrypter::atom::{
    Atom, BoxHeader, CO64_ATOM_TYPE, FTYP_ATOM_TYPE, MDAT_ATOM_TYPE, MOOV_ATOM_TYPE,
    STCO_ATOM_TYPE,
};
use aax_decrypter::error::Error;
use aax_decrypter::mp4_editor::{
    find_box, find_moov_atom, find_table, move_moov_to_beginning, relocate, update_stco_atom,
    OffsetTable,
};
use aax_decrypter::stream::ByteStream;

fn boxed(atom_type: u32, payload: &[u8]) -> Vec<u8> {
    let mut bytes = Vec::new();
    Atom { size: 8 + payload.len() as u64, atom_type }.write(&mut bytes).unwrap();
    bytes.extend_from_slice(payload);
    bytes
}

fn stco(entries: &[u32]) -> Vec<u8> {
    let mut body = vec![0; 4];
    body.extend_from_slice(&(entries.len() as u32).to_be_bytes());
    for entry in entries {
        body.extend_from_slice(&entry.to_be_bytes());
    }
    boxed(STCO_ATOM_TYPE, &body)
}

fn co64(entries: &[u64]) -> Vec<u8> {
    let mut body = vec![0; 4];
    body.extend_from_slice(&(entries.len() as u32).to_be_bytes());
    for entry in entries {
        body.extend_from_slice(&entry.to_be_bytes());
    }
    boxed(CO64_ATOM_TYPE, &body)
}

fn relocated(file: Vec<u8>) -> Result<Vec<u8>, Error> {
    let mut stream = ByteStream::new(file.clone());
    stream.set_position(3);
    match move_moov_to_beginning(&mut stream) {
        Ok(()) => {
            assert_eq!(stream.position(), stream.len());
            Ok(stream.into_inner())
        }
        Err(e) => {
            assert_eq!(stream.position(), 3);
            assert_eq!(stream.into_inner(), file);
            Err(e)
        }
    }
}

#[test]
fn test_move_moov_to_beginning() {
    let mut file_data = Vec::new();
    // ftyp
    let ftyp_atom = Atom { size: 32, atom_type: FTYP_ATOM_TYPE };
    ftyp_atom.write(&mut file_data).unwrap();
    file_data.extend_from_slice(&[0; 24]);
    // mdat
    let mdat_atom = Atom { size: 16, atom_type: MDAT_ATOM_TYPE };
    mdat_atom.write(&mut file_data).unwrap();
    file_data.extend_from_slice(&[0; 8]);
    // moov
    let mut stco_content = Vec::new();
    stco_content.extend_from_slice(&[0; 4]); // version and flags
    stco_content.extend_from_slice(&1u32.to_be_bytes()); // entry count
    stco_content.extend_from_slice(&32u32.to_be_bytes()); // offset
    let stco_atom = Atom { size: (stco_content.len() + 8) as u64, atom_type: STCO_ATOM_TYPE };
    let mut moov_content = Vec::new();
    stco_atom.write(&mut moov_content).unwrap();
    moov_content.extend_from_slice(&stco_content);

    let moov_atom = Atom { size: (moov_content.len() + 8) as u64, atom_type: MOOV_ATOM_TYPE };
    moov_atom.write(&mut file_data).unwrap();
    file_data.extend_from_slice(&moov_content);

    let mut file = ByteStream::new(file_data);
    move_moov_to_beginning(&mut file).unwrap();

    file.set_position(0);
    let new_file_data = file.read_to_end();

    // ftyp is 32 bytes, moov is 28 bytes. mdat starts at 60
    // stco offset should be 32 + 28 = 60
    let new_offset = &new_file_data[56..60];
    assert_eq!(u32::from_be_bytes(new_offset.try_into().unwrap()), 60);
}

#[test]
fn test_update_stco_atom() {
    let mut moov_buffer = Vec::new();
    // stco
    let mut stco_content = Vec::new();
    stco_content.extend_from_slice(&[0; 4]); // version and flags
    stco_content.extend_from_slice(&1u32.to_be_bytes()); // entry count
    stco_content.extend_from_slice(&32u32.to_be_bytes()); // offset
    let stco_atom = Atom { size: (stco_content.len() + 8) as u64, atom_type: STCO_ATOM_TYPE };
    stco_atom.write(&mut moov_buffer).unwrap();
    moov_buffer.extend_from_slice(&stco_content);

    update_stco_atom(&mut moov_buffer, 40).unwrap();

    let new_offset = &moov_buffer[16..20];
    assert_eq!(u32::from_be_bytes(new_offset.try_into().unwrap()), 72);
}

#[test]
fn relocation_puts_the_metadata_ahead_of_the_sample_data() {
    let ftyp = boxed(FTYP_ATOM_TYPE, &[0x11; 24]);
    let mdat = boxed(MDAT_ATOM_TYPE, &[0x22; 8]);
    let moov = boxed(MOOV_ATOM_TYPE, &stco(&[32]));
    assert_eq!(moov.len(), 28);
    let mut file = ftyp.clone();
    file.extend(&mdat);
    file.extend(&moov);

    let out = relocated(file).unwrap();

    let mut expected = ftyp;
    expected.extend(boxed(MOOV_ATOM_TYPE, &stco(&[32 + 28])));
    expected.extend(&mdat);
    assert_eq!(out, expected);
}

#[test]
fn relocation_twice_adds_the_size_twice() {
    let mut file = boxed(FTYP_ATOM_TYPE, &[0x11; 24]);
    file.extend(boxed(MDAT_ATOM_TYPE, &[0x22; 8]));
    file.extend(boxed(MOOV_ATOM_TYPE, &stco(&[32])));

    let once = relocated(file).unwrap();
    let twice = relocated(once.clone()).unwrap();

    assert_ne!(once, twice);
    assert_eq!(u32::from_be_bytes(once[56..60].try_into().unwrap()), 32 + 28);
    assert_eq!(u32::from_be_bytes(twice[56..60].try_into().unwrap()), 32 + 28 + 28);
    assert_eq!(once[..56], twice[..56]);
    assert_eq!(once[60..], twice[60..]);
}

#[test]
fn relocation_drops_other_boxes() {
    let ftyp = boxed(FTYP_ATOM_TYPE, &[]);
    let free = boxed(0x66726565, &[1, 2, 3]);
    let moov = boxed(MOOV_ATOM_TYPE, &boxed(0x6d766864, &[7; 5]));
    let mdat = boxed(MDAT_ATOM_TYPE, &[0x22; 3]);
    let mut file = ftyp.clone();
    for part in [&free, &moov, &free, &mdat, &free, &mdat, &moov] {
        file.extend(part.iter());
    }
    let mut expected = ftyp;
    expected.extend(&moov);
    expected.extend(&mdat);
    assert_eq!(relocated(file), Ok(expected));
}

#[test]
fn relocation_copies_extended_headers() {
    let ftyp = vec![0, 0, 0, 1, b'f', b't', b'y', b'p', 0, 0, 0, 0, 0, 0, 0, 17, 0xf0];
    let mut moov = vec![0, 0, 0, 1, b'm', b'o', b'o', b'v', 0, 0, 0, 0, 0, 0, 0, 36];
    moov.extend(stco(&[0x0102_0304]));
    let mdat = vec![0, 0, 0, 1, b'm', b'd', b'a', b't', 0, 0, 0, 0, 0, 0, 0, 18, 0xd0, 0xd1];
    let mut file = ftyp.clone();
    file.extend(&mdat);
    file.extend(&moov);

    let mut expected = ftyp;
    expected.extend(&moov[..16]);
    expected.extend(stco(&[0x0102_0304 + 36]));
    expected.extend(&mdat);
    assert_eq!(relocated(file), Ok(expected));
}

#[test]
fn relocation_needs_all_three_boxes() {
    let ftyp = boxed(FTYP_ATOM_TYPE, &[0x11; 4]);
    let mdat = boxed(MDAT_ATOM_TYPE, &[0x22; 8]);
    let moov = boxed(MOOV_ATOM_TYPE, &stco(&[32]));

    assert_eq!(relocated(Vec::new()), Err(Error::MissingBox));

    let mut first_is_not_ftyp = mdat.clone();
    first_is_not_ftyp.extend(&ftyp);
    first_is_not_ftyp.extend(&moov);
    assert_eq!(relocated(first_is_not_ftyp), Err(Error::MissingBox));

    let mut no_moov = ftyp.clone();
    no_moov.extend(&mdat);
    assert_eq!(relocated(no_moov), Err(Error::MissingBox));

    let mut no_mdat = ftyp.clone();
    no_mdat.extend(&moov);
    assert_eq!(relocated(no_mdat), Err(Error::MissingBox));
}

#[test]
fn relocation_of_a_malformed_file() {
    let ftyp = boxed(FTYP_ATOM_TYPE, &[0x11; 4]);
    let mdat = boxed(MDAT_ATOM_TYPE, &[0x22; 8]);
    let moov = boxed(MOOV_ATOM_TYPE, &stco(&[32]));

    assert_eq!(relocated(ftyp[..5].to_vec()), Err(Error::Io));
    assert_eq!(relocated(ftyp[..11].to_vec()), Err(Error::MalformedContainer));

    let mut cut_moov = ftyp.clone();
    cut_moov.extend(&mdat);
    cut_moov.extend(&moov[..moov.len() - 1]);
    assert_eq!(relocated(cut_moov), Err(Error::MalformedContainer));

    let mut cut_header = ftyp.clone();
    cut_header.extend(&moov);
    cut_header.extend(&mdat[..7]);
    assert_eq!(relocated(cut_header), Err(Error::Io));

    let mut bad_table = ftyp.clone();
    bad_table.extend(&mdat);
    let mut table = stco(&[32]);
    table[15] = 2;
    bad_table.extend(boxed(MOOV_ATOM_TYPE, &table));
    assert_eq!(relocated(bad_table), Err(Error::MalformedContainer));
}

#[test]
fn relocate_leaves_the_stream_bytes() {
    let mut file = boxed(FTYP_ATOM_TYPE, &[0x11; 24]);
    file.extend(boxed(MDAT_ATOM_TYPE, &[0x22; 8]));
    file.extend(boxed(MOOV_ATOM_TYPE, &stco(&[32])));
    let mut stream = ByteStream::new(file.clone());
    let out = relocate(&mut stream).unwrap();
    assert_eq!(stream.get_ref(), &file);
    assert_eq!(out.len(), file.len());
    assert_eq!(&out[32..36], &[0, 0, 0, 28]);
    assert_eq!(&out[36..40], b"moov");
}

#[test]
fn update_adds_to_every_entry() {
    let mut payload = boxed(0x6d766864, &[7; 5]);
    payload.extend(stco(&[0, 1, 0x1000, 0xFFFF_FF00]));
    payload.extend(&[0xee; 3]);
    let mut expected = boxed(0x6d766864, &[7; 5]);
    expected.extend(stco(&[0x50, 0x51, 0x1050, 0xFFFF_FF50]));
    expected.extend(&[0xee; 3]);
    assert_eq!(update_stco_atom(&mut payload, 0x50), Ok(()));
    assert_eq!(payload, expected);
}

#[test]
fn update_of_wide_entries() {
    let mut payload = co64(&[32, 0x1_0000_0000, u64::MAX - 1]);
    assert_eq!(update_stco_atom(&mut payload, 0x1_0000_0002), Ok(()));
    assert_eq!(payload, co64(&[0x1_0000_0022, 0x2_0000_0002, 0x1_0000_0000]));
}

#[test]
fn update_wraps_in_the_width_of_the_table() {
    let mut payload = stco(&[0xFFFF_FFFF, 5]);
    assert_eq!(update_stco_atom(&mut payload, 0x3_0000_0028), Ok(()));
    assert_eq!(payload, stco(&[0x27, 0x2d]));
}

#[test]
fn update_stops_at_the_first_table() {
    let mut payload = co64(&[10]);
    payload.extend(stco(&[10]));
    payload.extend(co64(&[10]));
    let mut expected = co64(&[17]);
    expected.extend(stco(&[10]));
    expected.extend(co64(&[10]));
    assert_eq!(update_stco_atom(&mut payload, 7), Ok(()));
    assert_eq!(payload, expected);
}

#[test]
fn update_does_not_look_inside_children() {
    let mut payload = boxed(0x7472616b, &stco(&[10]));
    let before = payload.clone();
    assert_eq!(update_stco_atom(&mut payload, 7), Ok(()));
    assert_eq!(payload, before);
}

#[test]
fn update_without_a_table_changes_nothing() {
    for payload in [
        Vec::new(),
        vec![1, 2, 3],
        boxed(0x6d766864, &[7; 5]),
        {
            // a child shorter than its header ends the search
            let mut p = vec![0, 0, 0, 4, b'j', b'u', b'n', b'k'];
            p.extend(stco(&[1]));
            p
        },
        {
            // a child that reaches behind the payload ends the search
            let mut p = vec![0, 0, 0, 200, b'j', b'u', b'n', b'k'];
            p.extend(stco(&[1]));
            p
        },
    ] {
        let mut buffer = payload.clone();
        assert_eq!(update_stco_atom(&mut buffer, 99), Ok(()));
        assert_eq!(buffer, payload);
    }
}

#[test]
fn update_of_a_table_with_no_entries() {
    let mut payload = stco(&[]);
    let before = payload.clone();
    assert_eq!(update_stco_atom(&mut payload, 99), Ok(()));
    assert_eq!(payload, before);
}

#[test]
fn update_goes_by_the_entry_count() {
    // The table declares a size of its header alone; its count says one entry.
    let mut payload = vec![0, 0, 0, 8, b's', b't', b'c', b'o', 0, 0, 0, 0, 0, 0, 0, 1, 0, 0, 0, 5];
    assert_eq!(update_stco_atom(&mut payload, 3), Ok(()));
    assert_eq!(&payload[16..], &[0, 0, 0, 8]);
}

#[test]
fn update_of_a_table_cut_short() {
    let whole = stco(&[1, 2]);
    for len in 8..16 {
        let mut payload = whole[..len].to_vec();
        assert_eq!(update_stco_atom(&mut payload, 9), Err(Error::Io));
        assert_eq!(payload, whole[..len].to_vec());
    }
    for len in 16..24 {
        let mut payload = whole[..len].to_vec();
        assert_eq!(update_stco_atom(&mut payload, 9), Err(Error::MalformedContainer));
        assert_eq!(payload, whole[..len].to_vec());
    }
    let mut wide = co64(&[1, 2]);
    wide.pop();
    let before = wide.clone();
    assert_eq!(update_stco_atom(&mut wide, 9), Err(Error::MalformedContainer));
    assert_eq!(wide, before);
}

#[test]
fn find_table_reports_width_and_place() {
    let mut payload = boxed(0x6d766864, &[7; 5]);
    payload.extend(co64(&[1]));
    assert_eq!(find_table(&payload), Some(OffsetTable { wide: true, body: 21 }));
    assert_eq!(find_table(&stco(&[])), Some(OffsetTable { wide: false, body: 8 }));
    assert_eq!(find_table(&[]), None);
    let extended = [0, 0, 0, 1, b's', b't', b'c', b'o', 0, 0, 0, 0, 0, 0, 0, 16];
    assert_eq!(find_table(&extended), Some(OffsetTable { wide: false, body: 16 }));
}

#[test]
fn find_moov_atom_stops_behind_the_header() {
    let mut file = boxed(FTYP_ATOM_TYPE, &[1; 4]);
    file.extend(boxed(MDAT_ATOM_TYPE, &[2; 6]));
    file.extend(boxed(MOOV_ATOM_TYPE, &[3; 9]));
    file.extend(boxed(MOOV_ATOM_TYPE, &[4; 1]));
    let mut stream = ByteStream::new(file);
    stream.set_position(40);
    assert_eq!(
        find_moov_atom(&mut stream),
        Ok(Some((26, Atom { size: 17, atom_type: MOOV_ATOM_TYPE })))
    );
    assert_eq!(stream.position(), 34);
    assert_eq!(
        find_box(&mut stream, MDAT_ATOM_TYPE),
        Ok(Some((12, BoxHeader { atom: Atom { size: 14, atom_type: MDAT_ATOM_TYPE }, header_len: 8 })))
    );
    assert_eq!(stream.position(), 20);
    assert_eq!(find_box(&mut stream, 0x66726565), Ok(None));
    assert_eq!(stream.position(), stream.len());
}

#[test]
fn find_moov_atom_in_a_malformed_file() {
    let mut file = boxed(FTYP_ATOM_TYPE, &[1; 4]);
    file.extend(&[0, 0, 0, 9, b'm', b'o', b'o', b'v']);
    let mut stream = ByteStream::new(file);
    stream.set_position(2);
    assert_eq!(find_moov_atom(&mut stream), Err(Error::MalformedContainer));
    assert_eq!(stream.position(), 2);
    let mut stream = ByteStream::new(Vec::new());
    assert_eq!(find_moov_atom(&mut stream), Ok(None));
}
