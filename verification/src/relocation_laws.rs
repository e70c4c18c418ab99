//! What holds of relocation beyond a single call: a file that is already in
//! order has only its offsets rewritten, and relocating twice adds to the
//! offsets twice.

use crate::atom::{
    lemma_header_form, lemma_next_box_agree, lemma_next_box_bounds, lemma_spec_read_agree,
    lemma_write_then_read, next_box, Atom, BoxHeader, CO64_ATOM_TYPE, FTYP_ATOM_TYPE,
    MDAT_ATOM_TYPE, MOOV_ATOM_TYPE, STCO_ATOM_TYPE,
};
use crate::endian::{
    be_u32, be_u64, lemma_be_bytes_len, lemma_be_u32_of_bytes, lemma_be_u32_prefix,
    lemma_be_u64_of_bytes, u32_be_bytes, u64_be_bytes,
};
use crate::error::Error;
use crate::mp4_editor::{
    lemma_patch_entries_len, patch_entries, patch_entry, spec_find_box, spec_find_table,
    spec_move_moov, spec_update_stco, OffsetTable,
};
use vstd::prelude::*;

verus! {

/// The body of a table that is found lies behind a header and within the
/// payload.
pub proof fn lemma_find_table_bounds(buf: Seq<u8>, from: int)
    requires
        buf.len() <= u64::MAX,
    ensures
        spec_find_table(buf, from) matches Some(t) ==> from + 8 <= t.body <= buf.len(),
    decreases buf.len() - from,
{
    if 0 <= from < buf.len() {
        if let Ok(Some(atom)) = Atom::spec_read(buf.skip(from)) {
            let header_len = Atom::spec_header_len(buf.skip(from));
            if atom.atom_type != STCO_ATOM_TYPE && atom.atom_type != CO64_ATOM_TYPE && !(atom.size
                < header_len || from + atom.size >= buf.len()) {
                lemma_find_table_bounds(buf, from + atom.size);
            }
        }
    }
}

/// The search for a table looks at nothing behind the header of the table:
/// a payload of the same length that is the same up to the body of the
/// table holds the same table.
pub proof fn lemma_find_table_agree(b1: Seq<u8>, b2: Seq<u8>, from: int)
    requires
        b1.len() == b2.len(),
        b1.len() <= u64::MAX,
        spec_find_table(b1, from) matches Some(t) && b1.take(t.body as int) == b2.take(
            t.body as int,
        ),
    ensures
        spec_find_table(b2, from) == spec_find_table(b1, from),
    decreases b1.len() - from,
{
    let t = spec_find_table(b1, from)->Some_0;
    let s1 = b1.skip(from);
    let s2 = b2.skip(from);
    let atom = Atom::spec_read(s1)->Ok_0->Some_0;
    let header_len = Atom::spec_header_len(s1) as int;
    lemma_find_table_bounds(b1, from);
    let is_table = atom.atom_type == STCO_ATOM_TYPE || atom.atom_type == CO64_ATOM_TYPE;
    if !is_table {
        lemma_find_table_bounds(b1, from + atom.size);
    }
    assert(from + header_len <= t.body);
    assert(s1.take(header_len) =~= b1.take(t.body as int).subrange(from, from + header_len));
    assert(s2.take(header_len) =~= b2.take(t.body as int).subrange(from, from + header_len));
    lemma_spec_read_agree(s1, s2);
    if !is_table {
        lemma_find_table_agree(b1, b2, from + atom.size);
    }
}

/// Whether relocation changes the payload `buf` of a metadata box of
/// `moov_size` bytes: it holds a table with at least one entry, and the
/// size is not a multiple of what the entries can hold.
pub open spec fn has_offsets_to_correct(buf: Seq<u8>, moov_size: u64) -> bool {
    spec_find_table(buf, 0) matches Some(table) && be_u32(buf.skip(table.body + 4)) > 0 && (
    table.wide || moov_size % 0x1_0000_0000 != 0) && moov_size != 0
}

/// An entry that had a size added has another value than before, unless
/// the size is a multiple of what the entry can hold.
pub proof fn lemma_patch_entry_changes(entry: Seq<u8>, wide: bool, delta: u64)
    requires
        entry.len() == (if wide { 8int } else { 4int }),
        delta != 0,
        wide || delta % 0x1_0000_0000 != 0,
    ensures
        patch_entry(entry, wide, delta) != entry,
{
    let patched = patch_entry(entry, wide, delta);
    if wide {
        let sum = be_u64(entry).wrapping_add(delta);
        lemma_be_u64_of_bytes(sum, Seq::empty());
        assert(u64_be_bytes(sum) + Seq::<u8>::empty() =~= u64_be_bytes(sum));
        assert(be_u64(patched) != be_u64(entry));
    } else {
        let sum = be_u32(entry).wrapping_add((delta % 0x1_0000_0000) as u32);
        lemma_be_u32_of_bytes(sum, Seq::empty());
        assert(u32_be_bytes(sum) + Seq::<u8>::empty() =~= u32_be_bytes(sum));
        assert(be_u32(patched) != be_u32(entry));
    }
}

/// An entry that had a size added twice holds its first value and twice the
/// size, wrapped to the width of the entry.
pub proof fn lemma_patch_entry_twice(entry: Seq<u8>, wide: bool, delta: u64)
    ensures
        wide ==> be_u64(patch_entry(patch_entry(entry, wide, delta), wide, delta)) == be_u64(
            entry,
        ).wrapping_add(delta).wrapping_add(delta),
        !wide ==> be_u32(patch_entry(patch_entry(entry, wide, delta), wide, delta)) == be_u32(
            entry,
        ).wrapping_add((delta % 0x1_0000_0000) as u32).wrapping_add(
            (delta % 0x1_0000_0000) as u32,
        ),
{
    if wide {
        let once = be_u64(entry).wrapping_add(delta);
        let twice = once.wrapping_add(delta);
        lemma_be_u64_of_bytes(once, Seq::empty());
        assert(u64_be_bytes(once) + Seq::<u8>::empty() =~= u64_be_bytes(once));
        lemma_be_u64_of_bytes(twice, Seq::empty());
        assert(u64_be_bytes(twice) + Seq::<u8>::empty() =~= u64_be_bytes(twice));
    } else {
        let small = (delta % 0x1_0000_0000) as u32;
        let once = be_u32(entry).wrapping_add(small);
        let twice = once.wrapping_add(small);
        lemma_be_u32_of_bytes(once, Seq::empty());
        assert(u32_be_bytes(once) + Seq::<u8>::empty() =~= u32_be_bytes(once));
        lemma_be_u32_of_bytes(twice, Seq::empty());
        assert(u32_be_bytes(twice) + Seq::<u8>::empty() =~= u32_be_bytes(twice));
    }
}

/// Entries that had a size added differ from what they were, if there is
/// at least one.
pub proof fn lemma_patch_entries_change(entries: Seq<u8>, wide: bool, delta: u64)
    requires
        entries.len() >= (if wide { 8int } else { 4int }),
        delta != 0,
        wide || delta % 0x1_0000_0000 != 0,
    ensures
        patch_entries(entries, wide, delta) != entries,
{
    let width: int = if wide {
        8
    } else {
        4
    };
    let cut = entries.len() - width;
    let head = patch_entries(entries.take(cut), wide, delta);
    let last = entries.skip(cut);
    lemma_patch_entries_len(entries.take(cut), wide, delta);
    lemma_patch_entry_changes(last, wide, delta);
    assert((head + patch_entry(last, wide, delta)).skip(cut) =~= patch_entry(last, wide, delta));
}

/// The payload of a metadata box after relocation has the length it had,
/// and holds the same table with the same number of entries. Relocating it
/// again adds to the entries again.
pub proof fn lemma_update_twice(buf: Seq<u8>, moov_size: u64)
    requires
        buf.len() <= u64::MAX,
        spec_update_stco(buf, moov_size) is Ok,
    ensures
        ({
            let once = spec_update_stco(buf, moov_size)->Ok_0;
            &&& once.len() == buf.len()
            &&& spec_find_table(once, 0) == spec_find_table(buf, 0)
            &&& spec_update_stco(once, moov_size) is Ok
            &&& match spec_find_table(buf, 0) {
                None => once == buf,
                Some(table) => {
                    let first = table.body + 8;
                    let end = first + be_u32(buf.skip(table.body + 4)) * table.width();
                    let entries = buf.subrange(first, end);
                    &&& be_u32(once.skip(table.body + 4)) == be_u32(buf.skip(table.body + 4))
                    &&& once == buf.take(first) + patch_entries(entries, table.wide, moov_size)
                        + buf.skip(end)
                    &&& spec_update_stco(once, moov_size)->Ok_0 == buf.take(first) + patch_entries(
                        patch_entries(entries, table.wide, moov_size),
                        table.wide,
                        moov_size,
                    ) + buf.skip(end)
                },
            }
            &&& has_offsets_to_correct(buf, moov_size) ==> spec_update_stco(once, moov_size)->Ok_0
                != once
        }),
{
    let once = spec_update_stco(buf, moov_size)->Ok_0;
    match spec_find_table(buf, 0) {
        None => {},
        Some(table) => {
            let first = table.body + 8;
            let count = be_u32(buf.skip(table.body + 4));
            let end = first + count * table.width();
            let entries = buf.subrange(first, end);
            let patched = patch_entries(entries, table.wide, moov_size);
            lemma_patch_entries_len(entries, table.wide, moov_size);
            lemma_find_table_bounds(buf, 0);
            assert(once.len() == buf.len());
            assert(once.take(table.body as int) =~= buf.take(table.body as int));
            lemma_find_table_agree(buf, once, 0);
            assert(once.skip(table.body + 4).take(4) =~= buf.skip(table.body + 4).take(4));
            lemma_be_u32_prefix(once.skip(table.body + 4), buf.skip(table.body + 4));
            assert(once.take(first) =~= buf.take(first));
            assert(once.subrange(first, end) =~= patched);
            assert(once.skip(end) =~= buf.skip(end));
            if has_offsets_to_correct(buf, moov_size) {
                assert(count * table.width() >= table.width()) by (nonlinear_arith)
                    requires
                        count >= 1,
                        table.width() > 0,
                ;
                lemma_patch_entries_len(patched, table.wide, moov_size);
                lemma_patch_entries_change(patched, table.wide, moov_size);
                let twice = spec_update_stco(once, moov_size)->Ok_0;
                assert(twice.subrange(first, end) =~= patch_entries(
                    patched,
                    table.wide,
                    moov_size,
                ));
            }
        },
    }
}

/// The search for a box fails in two ways only: the file ends inside a
/// header, or a declared size does not fit.
pub proof fn lemma_find_box_errors(input: Seq<u8>, from: int, atom_type: u32)
    ensures
        spec_find_box(input, from, atom_type) matches Err(e) ==> e == Error::Io || e
            == Error::MalformedContainer,
    decreases input.len() - from,
{
    if 0 <= from < input.len() {
        lemma_next_box_bounds(input.skip(from));
        reveal(next_box);
        if let Ok(Some(b)) = next_box(input.skip(from)) {
            if b.atom.atom_type != atom_type {
                lemma_find_box_errors(input, from + b.atom.size, atom_type);
            }
        }
    }
}

/// Relocation fails in three ways only: a box is missing, the file ends
/// inside a fixed-width field, or a declared size or count does not fit.
pub proof fn lemma_move_moov_errors(input: Seq<u8>)
    ensures
        spec_move_moov(input) matches Err(e) ==> e == Error::MissingBox || e == Error::Io || e
            == Error::MalformedContainer,
{
    reveal(next_box);
    lemma_find_box_errors(input, 0, MOOV_ATOM_TYPE);
    lemma_find_box_errors(input, 0, MDAT_ATOM_TYPE);
}

/// A box that the search finds starts a whole box of the type looked for,
/// at or behind the place where the search began.
pub proof fn lemma_find_box_found(input: Seq<u8>, from: int, atom_type: u32)
    requires
        input.len() <= u64::MAX,
    ensures
        spec_find_box(input, from, atom_type) matches Ok(Some((at, b))) ==> {
            &&& from <= at
            &&& next_box(input.skip(at as int)) == Ok::<Option<BoxHeader>, Error>(Some(b))
            &&& b.atom.atom_type == atom_type
            &&& b.header_len <= b.atom.size
            &&& at + b.atom.size <= input.len()
        },
    decreases input.len() - from,
{
    if 0 <= from < input.len() {
        lemma_next_box_bounds(input.skip(from));
        if let Ok(Some(b)) = next_box(input.skip(from)) {
            if b.atom.atom_type != atom_type {
                lemma_find_box_found(input, from + b.atom.size, atom_type);
            }
        }
    }
}

/// Two boxes of different types that searches from the same place find do
/// not overlap.
pub proof fn lemma_found_boxes_apart(input: Seq<u8>, from: int, type1: u32, type2: u32)
    requires
        input.len() <= u64::MAX,
        type1 != type2,
        spec_find_box(input, from, type1) matches Ok(Some(_)),
        spec_find_box(input, from, type2) matches Ok(Some(_)),
    ensures
        ({
            let (at1, b1) = spec_find_box(input, from, type1)->Ok_0->Some_0;
            let (at2, b2) = spec_find_box(input, from, type2)->Ok_0->Some_0;
            at1 + b1.atom.size <= at2 || at2 + b2.atom.size <= at1
        }),
    decreases input.len() - from,
{
    lemma_next_box_bounds(input.skip(from));
    let b = next_box(input.skip(from))->Ok_0->Some_0;
    let next = from + b.atom.size;
    if b.atom.atom_type == type1 {
        lemma_find_box_found(input, next, type2);
    } else if b.atom.atom_type == type2 {
        lemma_find_box_found(input, next, type1);
    } else {
        lemma_found_boxes_apart(input, next, type1, type2);
    }
}

/// The relocated file is no longer than the file it was made from.
pub proof fn lemma_relocated_len(input: Seq<u8>)
    requires
        input.len() <= u64::MAX,
        spec_move_moov(input) is Ok,
    ensures
        spec_move_moov(input)->Ok_0.len() <= input.len(),
{
    let ftyp_box = next_box(input)->Ok_0->Some_0;
    let (moov_at, moov_box) = spec_find_box(input, 0, MOOV_ATOM_TYPE)->Ok_0->Some_0;
    let (mdat_at, mdat_box) = spec_find_box(input, 0, MDAT_ATOM_TYPE)->Ok_0->Some_0;
    let first = ftyp_box.atom.size as int;
    let payload = input.subrange(moov_at + moov_box.header_len, moov_at + moov_box.atom.size);
    lemma_next_box_bounds(input);
    assert(input.skip(0) =~= input);
    assert(spec_find_box(input, 0, MOOV_ATOM_TYPE) == spec_find_box(
        input,
        first,
        MOOV_ATOM_TYPE,
    ));
    assert(spec_find_box(input, 0, MDAT_ATOM_TYPE) == spec_find_box(
        input,
        first,
        MDAT_ATOM_TYPE,
    ));
    lemma_find_box_found(input, first, MOOV_ATOM_TYPE);
    lemma_find_box_found(input, first, MDAT_ATOM_TYPE);
    lemma_found_boxes_apart(input, first, MOOV_ATOM_TYPE, MDAT_ATOM_TYPE);
    lemma_update_twice(payload, moov_box.atom.size);
}

/// A file of nothing but the three boxes in playback order: the
/// compatibility box `ftyp`, the metadata box of the header `moov_header`
/// and the payload `payload`, and the sample-data box `mdat`.
pub open spec fn in_playback_order(
    ftyp: Seq<u8>,
    moov_header: Seq<u8>,
    payload: Seq<u8>,
    mdat: Seq<u8>,
) -> Seq<u8> {
    ftyp + moov_header + payload + mdat
}

/// Whether `bytes` is one whole box of the type `atom_type` with the header
/// `b`.
pub open spec fn is_box(bytes: Seq<u8>, b: BoxHeader, atom_type: u32) -> bool {
    &&& next_box(bytes) == Ok::<Option<BoxHeader>, Error>(Some(b))
    &&& b.atom.size == bytes.len()
    &&& b.atom.atom_type == atom_type
}

/// In a file of three boxes of three types the second is found behind the
/// first, and the third behind the second.
proof fn lemma_find_in_three_boxes(
    b1: Seq<u8>,
    h1: BoxHeader,
    b2: Seq<u8>,
    h2: BoxHeader,
    b3: Seq<u8>,
    h3: BoxHeader,
)
    requires
        is_box(b1, h1, h1.atom.atom_type),
        is_box(b2, h2, h2.atom.atom_type),
        is_box(b3, h3, h3.atom.atom_type),
        h1.atom.atom_type != h2.atom.atom_type,
        h1.atom.atom_type != h3.atom.atom_type,
        h2.atom.atom_type != h3.atom.atom_type,
        b1.len() + b2.len() + b3.len() <= u64::MAX,
    ensures
        next_box(b1 + b2 + b3) == Ok::<Option<BoxHeader>, Error>(Some(h1)),
        spec_find_box(b1 + b2 + b3, 0, h2.atom.atom_type) == Ok::<
            Option<(u64, BoxHeader)>,
            Error,
        >(Some((b1.len() as u64, h2))),
        spec_find_box(b1 + b2 + b3, 0, h3.atom.atom_type) == Ok::<
            Option<(u64, BoxHeader)>,
            Error,
        >(Some(((b1.len() + b2.len()) as u64, h3))),
{
    let file = b1 + b2 + b3;
    let n1 = b1.len() as int;
    let n2 = b2.len() as int;
    let t2 = h2.atom.atom_type;
    let t3 = h3.atom.atom_type;
    lemma_next_box_bounds(b1);
    lemma_next_box_bounds(b2);
    lemma_next_box_bounds(b3);

    assert(file.skip(0) =~= file);
    assert(file.take(h1.header_len as int) =~= b1.take(h1.header_len as int));
    lemma_next_box_agree(b1, file);

    assert(file.skip(n1) =~= b2 + b3);
    assert((b2 + b3).take(h2.header_len as int) =~= b2.take(h2.header_len as int));
    lemma_next_box_agree(b2, b2 + b3);

    assert(file.skip(n1 + n2) =~= b3);

    assert(spec_find_box(file, n1, t2) == Ok::<Option<(u64, BoxHeader)>, Error>(
        Some((n1 as u64, h2)),
    ));
    assert(spec_find_box(file, 0, t2) == spec_find_box(file, n1, t2));

    assert(spec_find_box(file, n1 + n2, t3) == Ok::<Option<(u64, BoxHeader)>, Error>(
        Some(((n1 + n2) as u64, h3)),
    ));
    assert(spec_find_box(file, n1, t3) == spec_find_box(file, n1 + n2, t3));
    assert(spec_find_box(file, 0, t3) == spec_find_box(file, n1, t3));
}

/// A file laid out as compatibility box, sample data, metadata is
/// relocated to compatibility box, metadata, sample data, with the offsets
/// in the metadata corrected by the size of the metadata box.
pub proof fn lemma_move_moov_behind_sample_data(
    ftyp: Seq<u8>,
    ftyp_box: BoxHeader,
    mdat: Seq<u8>,
    mdat_box: BoxHeader,
    moov_header: Seq<u8>,
    payload: Seq<u8>,
    moov_box: BoxHeader,
)
    requires
        is_box(ftyp, ftyp_box, FTYP_ATOM_TYPE),
        is_box(mdat, mdat_box, MDAT_ATOM_TYPE),
        is_box(moov_header + payload, moov_box, MOOV_ATOM_TYPE),
        moov_box.header_len == moov_header.len(),
        ftyp.len() + moov_header.len() + payload.len() + mdat.len() <= u64::MAX,
    ensures
        spec_move_moov(ftyp + mdat + moov_header + payload) == (match spec_update_stco(
            payload,
            moov_box.atom.size,
        ) {
            Ok(corrected) => Ok::<Seq<u8>, Error>(
                in_playback_order(ftyp, moov_header, corrected, mdat),
            ),
            Err(e) => Err(e),
        }),
{
    let moov = moov_header + payload;
    let file = ftyp + mdat + moov_header + payload;
    let n1 = ftyp.len() as int;
    let n2 = mdat.len() as int;
    let h = moov_header.len() as int;
    assert(file =~= ftyp + mdat + moov);
    lemma_find_in_three_boxes(ftyp, ftyp_box, mdat, mdat_box, moov, moov_box);
    assert(file.subrange(n1 + n2 + h, n1 + n2 + moov.len()) =~= payload);
    assert(file.take(n1) =~= ftyp);
    assert(file.subrange(n1 + n2, n1 + n2 + h) =~= moov_header);
    assert(file.subrange(n1, n1 + n2) =~= mdat);
}

/// The bytes of a table of 32-bit offsets: header, version and flags, the
/// number of entries, the entries.
pub open spec fn stco_table(version_flags: Seq<u8>, entries: Seq<u8>) -> Seq<u8> {
    (Atom { size: (16 + entries.len()) as u64, atom_type: STCO_ATOM_TYPE }).spec_bytes()
        + version_flags + u32_be_bytes((entries.len() / 4) as u32) + entries
}

/// A payload that starts with a table of 32-bit offsets has the size of the
/// metadata box added to every entry of that table, and nothing else
/// changed.
pub proof fn lemma_update_leading_stco(
    version_flags: Seq<u8>,
    entries: Seq<u8>,
    rest: Seq<u8>,
    moov_size: u64,
)
    requires
        version_flags.len() == 4,
        entries.len() % 4 == 0,
        16 + entries.len() <= 0xFFFF_FFFF,
        16 + entries.len() + rest.len() <= u64::MAX,
    ensures
        spec_update_stco(stco_table(version_flags, entries) + rest, moov_size) == Ok::<
            Seq<u8>,
            Error,
        >(stco_table(version_flags, patch_entries(entries, false, moov_size)) + rest),
{
    let atom = Atom { size: (16 + entries.len()) as u64, atom_type: STCO_ATOM_TYPE };
    let count = u32_be_bytes((entries.len() / 4) as u32);
    let buf = stco_table(version_flags, entries) + rest;
    let tail = version_flags + count + entries + rest;
    lemma_be_bytes_len((entries.len() / 4) as u32, 0);
    lemma_header_form(atom);
    lemma_write_then_read(atom, tail);
    assert(buf =~= atom.spec_bytes() + tail);
    assert(buf.skip(0) =~= buf);
    assert(spec_find_table(buf, 0) == Some(OffsetTable { wide: false, body: 8 }));
    assert(buf.skip(12) =~= count + (entries + rest));
    lemma_be_u32_of_bytes((entries.len() / 4) as u32, entries + rest);
    assert(buf.take(16) =~= atom.spec_bytes() + version_flags + count);
    let end = 16 + entries.len() as int;
    assert(buf.subrange(16, end) =~= entries);
    assert(buf.skip(end) =~= rest);
    lemma_patch_entries_len(entries, false, moov_size);
}

/// A single 32-bit offset with a size added holds the sum of the two,
/// wrapped to 32 bits.
pub proof fn lemma_patch_single_offset(offset: u32, moov_size: u64)
    ensures
        patch_entries(u32_be_bytes(offset), false, moov_size) == u32_be_bytes(
            offset.wrapping_add((moov_size % 0x1_0000_0000) as u32),
        ),
{
    let entry = u32_be_bytes(offset);
    lemma_be_bytes_len(offset, 0);
    lemma_be_u32_of_bytes(offset, Seq::empty());
    assert(entry + Seq::<u8>::empty() =~= entry);
    assert(entry.take(0) =~= Seq::<u8>::empty());
    assert(entry.skip(0) =~= entry);
    assert(patch_entries(Seq::<u8>::empty(), false, moov_size) =~= Seq::<u8>::empty());
    assert(Seq::<u8>::empty() + patch_entry(entry, false, moov_size) =~= patch_entry(
        entry,
        false,
        moov_size,
    ));
}

/// Relocating a file that is in playback order already rewrites the
/// offsets in the metadata box and nothing else.
pub proof fn lemma_move_moov_in_playback_order(
    ftyp: Seq<u8>,
    ftyp_box: BoxHeader,
    moov_header: Seq<u8>,
    payload: Seq<u8>,
    moov_box: BoxHeader,
    mdat: Seq<u8>,
    mdat_box: BoxHeader,
)
    requires
        is_box(ftyp, ftyp_box, FTYP_ATOM_TYPE),
        is_box(moov_header + payload, moov_box, MOOV_ATOM_TYPE),
        moov_box.header_len == moov_header.len(),
        is_box(mdat, mdat_box, MDAT_ATOM_TYPE),
        ftyp.len() + moov_header.len() + payload.len() + mdat.len() <= u64::MAX,
    ensures
        spec_move_moov(in_playback_order(ftyp, moov_header, payload, mdat)) == (
        match spec_update_stco(payload, moov_box.atom.size) {
            Ok(corrected) => Ok::<Seq<u8>, Error>(
                in_playback_order(ftyp, moov_header, corrected, mdat),
            ),
            Err(e) => Err(e),
        }),
{
    let moov = moov_header + payload;
    let file = in_playback_order(ftyp, moov_header, payload, mdat);
    let n1 = ftyp.len() as int;
    let n2 = moov.len() as int;
    let h = moov_header.len() as int;
    assert(file =~= ftyp + moov + mdat);
    lemma_find_in_three_boxes(ftyp, ftyp_box, moov, moov_box, mdat, mdat_box);
    assert(file.subrange(n1 + h, n1 + n2) =~= payload);
    assert(file.take(n1) =~= ftyp);
    assert(file.subrange(n1, n1 + h) =~= moov_header);
    assert(file.subrange(n1 + n2, n1 + n2 + mdat.len()) =~= mdat);
}

/// The metadata box that relocation moves: where it starts and its header.
pub open spec fn moved_box(input: Seq<u8>) -> (u64, BoxHeader) {
    spec_find_box(input, 0, MOOV_ATOM_TYPE)->Ok_0->Some_0
}

/// The payload of the metadata box that relocation moves.
pub open spec fn moved_payload(input: Seq<u8>) -> Seq<u8> {
    let (at, b) = moved_box(input);
    input.subrange(at + b.header_len, at + b.atom.size)
}

/// Relocation is not idempotent. A file that has been relocated can be
/// relocated again; the second run adds the size of the metadata box to
/// the offsets once more and changes nothing else, so its result differs
/// from that of the first wherever there are offsets to correct.
pub proof fn lemma_relocation_twice(input: Seq<u8>)
    requires
        input.len() <= u64::MAX,
        spec_move_moov(input) is Ok,
    ensures
        ({
            let once = spec_move_moov(input)->Ok_0;
            let size = moved_box(input).1.atom.size;
            let payload = moved_payload(input);
            let corrected = spec_update_stco(payload, size)->Ok_0;
            &&& spec_update_stco(corrected, size) is Ok
            &&& spec_move_moov(once) is Ok
            &&& moved_box(once).1 == moved_box(input).1
            &&& moved_payload(once) == corrected
            &&& spec_move_moov(once)->Ok_0.len() == once.len()
            &&& spec_move_moov(spec_move_moov(once)->Ok_0) is Ok
            &&& moved_payload(spec_move_moov(once)->Ok_0) == spec_update_stco(corrected, size)->Ok_0
            &&& has_offsets_to_correct(payload, size) ==> spec_move_moov(once)->Ok_0 != once
        }),
{
    let once = spec_move_moov(input)->Ok_0;
    let ftyp_box = next_box(input)->Ok_0->Some_0;
    let (moov_at, moov_box) = moved_box(input);
    let (mdat_at, mdat_box) = spec_find_box(input, 0, MDAT_ATOM_TYPE)->Ok_0->Some_0;
    let size = moov_box.atom.size;
    let payload = moved_payload(input);
    let corrected = spec_update_stco(payload, size)->Ok_0;

    let ftyp = input.take(ftyp_box.atom.size as int);
    let moov_header = input.subrange(moov_at as int, moov_at + moov_box.header_len);
    let mdat = input.subrange(mdat_at as int, mdat_at + mdat_box.atom.size);
    assert(once == in_playback_order(ftyp, moov_header, corrected, mdat));

    lemma_next_box_bounds(input);
    lemma_find_box_found(input, 0, MOOV_ATOM_TYPE);
    lemma_find_box_found(input, 0, MDAT_ATOM_TYPE);
    lemma_update_twice(payload, size);
    let again = spec_update_stco(corrected, size)->Ok_0;
    lemma_update_twice(corrected, size);
    lemma_relocated_len(input);
    assert(once.len() == ftyp.len() + moov_header.len() + corrected.len() + mdat.len());

    // The three parts are whole boxes with the headers they had.
    assert(ftyp.take(ftyp_box.header_len as int) =~= input.take(ftyp_box.header_len as int));
    lemma_next_box_agree(input, ftyp);
    let at_moov = input.skip(moov_at as int);
    assert((moov_header + corrected).take(moov_box.header_len as int) =~= at_moov.take(
        moov_box.header_len as int,
    ));
    lemma_next_box_agree(at_moov, moov_header + corrected);
    assert((moov_header + again).take(moov_box.header_len as int) =~= at_moov.take(
        moov_box.header_len as int,
    ));
    lemma_next_box_agree(at_moov, moov_header + again);
    let at_mdat = input.skip(mdat_at as int);
    assert(mdat.take(mdat_box.header_len as int) =~= at_mdat.take(mdat_box.header_len as int));
    lemma_next_box_agree(at_mdat, mdat);

    lemma_move_moov_in_playback_order(
        ftyp,
        ftyp_box,
        moov_header,
        corrected,
        moov_box,
        mdat,
        mdat_box,
    );
    let twice = in_playback_order(ftyp, moov_header, again, mdat);
    assert(spec_move_moov(once) == Ok::<Seq<u8>, Error>(twice));
    lemma_move_moov_in_playback_order(ftyp, ftyp_box, moov_header, again, moov_box, mdat, mdat_box);

    // Where the metadata box stands in the relocated files.
    let n1 = ftyp.len() as int;
    let h = moov_header.len() as int;
    lemma_find_in_three_boxes(
        ftyp,
        ftyp_box,
        moov_header + corrected,
        moov_box,
        mdat,
        mdat_box,
    );
    assert(once =~= ftyp + (moov_header + corrected) + mdat);
    assert(once.subrange(n1 + h, n1 + size) =~= corrected);
    lemma_find_in_three_boxes(ftyp, ftyp_box, moov_header + again, moov_box, mdat, mdat_box);
    assert(twice =~= ftyp + (moov_header + again) + mdat);
    assert(twice.subrange(n1 + h, n1 + size) =~= again);
}

} // verus!
