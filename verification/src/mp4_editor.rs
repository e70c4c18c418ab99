//! Relocation of the metadata box ahead of the sample data, for playback
//! that starts before the whole file has arrived.

use crate::atom::{
    lemma_next_box_bounds, next_box, read_box, Atom, BoxHeader, CO64_ATOM_TYPE, FTYP_ATOM_TYPE,
    MDAT_ATOM_TYPE, MOOV_ATOM_TYPE, STCO_ATOM_TYPE,
};
use crate::endian::{
    be_bytes_of_u32, be_bytes_of_u64, be_u32, be_u64, lemma_be_bytes_len, lemma_be_u32_prefix,
    lemma_be_u64_prefix, read_be_u32, read_be_u64, u32_be_bytes, u64_be_bytes,
};
use crate::error::Error;
use crate::stream::{append_bytes, ByteStream};
use vstd::pervasive::unreached;
use vstd::prelude::*;
use vstd::slice::slice_subrange;

verus! {

/// A table of chunk offsets inside the payload of the metadata box.
#[derive(Debug, Clone, Copy, PartialEq, Eq, Structural)]
pub struct OffsetTable {
    /// Whether the entries are 64 bits wide (`co64`) or 32 (`stco`).
    pub wide: bool,
    /// Where the body of the table starts, in bytes from the start of the
    /// payload: four bytes of version and flags, four bytes of entry count,
    /// then the entries.
    pub body: u64,
}

impl OffsetTable {
    /// The width of an entry in bytes.
    pub open spec fn width(self) -> int {
        if self.wide {
            8
        } else {
            4
        }
    }
}

/// The first offset table among the boxes of `buf` that start at `from` or
/// later, each found by skipping the one before it. The search ends without
/// a table at the end of `buf`, at a header that is cut short, at a box that
/// is shorter than its own header, and at one that reaches the end of `buf`
/// or beyond.
pub open spec fn spec_find_table(buf: Seq<u8>, from: int) -> Option<OffsetTable>
    decreases buf.len() - from,
{
    if from < 0 || from >= buf.len() {
        None
    } else {
        match Atom::spec_read(buf.skip(from)) {
            Ok(Some(atom)) => {
                let header_len = Atom::spec_header_len(buf.skip(from));
                if atom.atom_type == STCO_ATOM_TYPE {
                    Some(OffsetTable { wide: false, body: (from + header_len) as u64 })
                } else if atom.atom_type == CO64_ATOM_TYPE {
                    Some(OffsetTable { wide: true, body: (from + header_len) as u64 })
                } else if atom.size < header_len || from + atom.size >= buf.len() {
                    None
                } else {
                    spec_find_table(buf, from + atom.size)
                }
            },
            _ => None,
        }
    }
}

/// One entry with `delta` added, in the width of the entry; the sum wraps.
pub open spec fn patch_entry(entry: Seq<u8>, wide: bool, delta: u64) -> Seq<u8> {
    if wide {
        u64_be_bytes(be_u64(entry).wrapping_add(delta))
    } else {
        u32_be_bytes(be_u32(entry).wrapping_add((delta % 0x1_0000_0000) as u32))
    }
}

/// Every entry of `entries` with `delta` added.
pub open spec fn patch_entries(entries: Seq<u8>, wide: bool, delta: u64) -> Seq<u8>
    decreases entries.len(),
{
    let width: int = if wide {
        8
    } else {
        4
    };
    if entries.len() < width {
        entries
    } else {
        patch_entries(entries.take(entries.len() - width), wide, delta) + patch_entry(
            entries.skip(entries.len() - width),
            wide,
            delta,
        )
    }
}

/// The payload `buf` of a metadata box of `moov_size` bytes after it has
/// moved ahead of the sample data: the entries of its first offset table
/// have `moov_size` added; without a table nothing changes.
pub open spec fn spec_update_stco(buf: Seq<u8>, moov_size: u64) -> Result<Seq<u8>, Error> {
    match spec_find_table(buf, 0) {
        None => Ok(buf),
        Some(table) => {
            let first = table.body + 8;
            let end = first + be_u32(buf.skip(table.body + 4)) * table.width();
            if first > buf.len() {
                Err(Error::Io)
            } else if end > buf.len() {
                Err(Error::MalformedContainer)
            } else {
                Ok(
                    buf.take(first) + patch_entries(
                        buf.subrange(first, end),
                        table.wide,
                        moov_size,
                    ) + buf.skip(end),
                )
            }
        },
    }
}

/// The first whole box of type `atom_type` among the boxes of `input` that
/// start at `from` or later, with the offset at which it starts.
pub open spec fn spec_find_box(input: Seq<u8>, from: int, atom_type: u32) -> Result<
    Option<(u64, BoxHeader)>,
    Error,
>
    decreases input.len() - from,
{
    if from < 0 || from >= input.len() {
        Ok(None)
    } else {
        match next_box(input.skip(from)) {
            Err(e) => Err(e),
            Ok(None) => Ok(None),
            Ok(Some(b)) => {
                proof {
                    lemma_next_box_bounds(input.skip(from));
                }
                if b.atom.atom_type == atom_type {
                    Ok(Some((from as u64, b)))
                } else {
                    spec_find_box(input, from + b.atom.size, atom_type)
                }
            },
        }
    }
}

/// The file `input` with its metadata box moved ahead of its sample data:
/// the compatibility box, the metadata box with its offsets corrected, the
/// sample-data box, and nothing else.
pub open spec fn spec_move_moov(input: Seq<u8>) -> Result<Seq<u8>, Error> {
    match next_box(input) {
        Err(e) => Err(e),
        Ok(None) => Err(Error::MissingBox),
        Ok(Some(ftyp)) => if ftyp.atom.atom_type != FTYP_ATOM_TYPE {
            Err(Error::MissingBox)
        } else {
            match spec_find_box(input, 0, MOOV_ATOM_TYPE) {
                Err(e) => Err(e),
                Ok(None) => Err(Error::MissingBox),
                Ok(Some((moov_at, moov))) => match spec_update_stco(
                    input.subrange(moov_at + moov.header_len, moov_at + moov.atom.size),
                    moov.atom.size,
                ) {
                    Err(e) => Err(e),
                    Ok(payload) => match spec_find_box(input, 0, MDAT_ATOM_TYPE) {
                        Err(e) => Err(e),
                        Ok(None) => Err(Error::MissingBox),
                        Ok(Some((mdat_at, mdat))) => Ok(
                            input.take(ftyp.atom.size as int) + input.subrange(
                                moov_at as int,
                                moov_at + moov.header_len,
                            ) + payload + input.subrange(
                                mdat_at as int,
                                mdat_at + mdat.atom.size,
                            ),
                        ),
                    },
                },
            }
        },
    }
}

/// Overwrites the bytes of `buf` from `at` on with `bytes`.
fn write_at(buf: &mut Vec<u8>, at: usize, bytes: &[u8])
    requires
        at + bytes@.len() <= old(buf)@.len(),
    ensures
        final(buf)@ == old(buf)@.take(at as int) + bytes@ + old(buf)@.skip(at + bytes@.len()),
{
    let len: usize = buf.len();
    let mut i: usize = 0;
    while i < bytes.len()
        invariant
            i <= bytes@.len(),
            at + bytes@.len() <= buf@.len() == len,
            old(buf)@.len() == len,
            buf@ == old(buf)@.take(at as int) + bytes@.take(i as int) + old(buf)@.skip(at + i),
        decreases bytes@.len() - i,
    {
        let ghost prev = buf@;
        buf.set(at + i, bytes[i]);
        i += 1;
        proof {
            let next = old(buf)@.take(at as int) + bytes@.take(i as int) + old(buf)@.skip(at + i);
            assert(buf@.len() == next.len());
            assert forall|j: int| 0 <= j < next.len() implies buf@[j] == next[j] by {
                if j != at + i - 1 {
                    assert(buf@[j] == prev[j]);
                }
            }
            assert(buf@ =~= next);
        }
    }
    assert(bytes@.take(i as int) =~= bytes@);
}

/// Looks for the first offset table among the boxes of `buf`.
pub fn find_table(buf: &[u8]) -> (r: Option<OffsetTable>)
    ensures
        r == spec_find_table(buf@, 0),
{
    let len: usize = buf.len();
    let mut pos: usize = 0;
    while pos < len
        invariant
            pos <= len,
            len == buf@.len(),
            spec_find_table(buf@, 0) == spec_find_table(buf@, pos as int),
        decreases len - pos,
    {
        match Atom::parse(slice_subrange(buf, pos, len)) {
            Ok(Some((atom, header_len))) => {
                assert(buf@.subrange(pos as int, len as int) =~= buf@.skip(pos as int));
                if atom.atom_type == STCO_ATOM_TYPE {
                    return Some(OffsetTable { wide: false, body: pos as u64 + header_len });
                } else if atom.atom_type == CO64_ATOM_TYPE {
                    return Some(OffsetTable { wide: true, body: pos as u64 + header_len });
                } else if atom.size < header_len || atom.size >= (len - pos) as u64 {
                    return None;
                } else {
                    pos = pos + atom.size as usize;
                }
            },
            _ => {
                assert(buf@.subrange(pos as int, len as int) =~= buf@.skip(pos as int));
                return None;
            },
        }
    }
    None
}

/// Adds `moov_size` to every entry of the first offset table in the payload
/// `moov_buffer` of a metadata box. On failure the payload is left as it
/// was found.
pub fn update_stco_atom(moov_buffer: &mut Vec<u8>, moov_size: u64) -> (r: Result<(), Error>)
    ensures
        match r {
            Ok(()) => spec_update_stco(old(moov_buffer)@, moov_size) == Ok::<Seq<u8>, Error>(
                final(moov_buffer)@,
            ),
            Err(e) => {
                &&& spec_update_stco(old(moov_buffer)@, moov_size) == Err::<Seq<u8>, Error>(e)
                &&& final(moov_buffer)@ == old(moov_buffer)@
            },
        },
{
    let table = match find_table(moov_buffer.as_slice()) {
        None => {
            return Ok(());
        },
        Some(table) => table,
    };
    let ghost all = moov_buffer@;
    let len: u64 = moov_buffer.len() as u64;
    if table.body > len || len - table.body < 8 {
        return Err(Error::Io);
    }
    let first: u64 = table.body + 8;
    let count: u64 = read_be_u32(
        slice_subrange(moov_buffer.as_slice(), (table.body + 4) as usize, len as usize),
    ) as u64;
    let width: u64 = if table.wide {
        8
    } else {
        4
    };
    proof {
        lemma_entries_fit(count as int, width as int, len - first);
    }
    if count > (len - first) / width {
        return Err(Error::MalformedContainer);
    }
    let ghost end = first + count * width;
    let mut done: u64 = 0;
    let mut at: u64 = first;
    assert(all.subrange(first as int, first as int) =~= Seq::<u8>::empty());
    assert(moov_buffer@ =~= all.take(first as int) + Seq::<u8>::empty() + all.skip(first as int));
    while done < count
        invariant
            done <= count,
            at == first + done * width,
            end == first + count * width,
            end <= len <= usize::MAX,
            len == all.len(),
            moov_buffer@.len() == all.len(),
            width == table.width(),
            moov_buffer@ == all.take(first as int) + patch_entries(
                all.subrange(first as int, at as int),
                table.wide,
                moov_size,
            ) + all.skip(at as int),
        decreases count - done,
    {
        assert(at + width <= end) by (nonlinear_arith)
            requires
                at == first + done * width,
                end == first + count * width,
                done < count,
                width > 0,
        ;
        let ghost before = moov_buffer@;
        let ghost entry = all.subrange(at as int, at + width);
        let ghost head = all.take(first as int) + patch_entries(
            all.subrange(first as int, at as int),
            table.wide,
            moov_size,
        );
        assert(head.len() == at) by {
            lemma_patch_entries_len(all.subrange(first as int, at as int), table.wide, moov_size);
        }
        let entry_slice = slice_subrange(moov_buffer.as_slice(), at as usize, len as usize);
        assert(entry_slice@ =~= all.skip(at as int));
        assert(entry_slice@.take(width as int) =~= entry.take(width as int));
        let patched: Vec<u8> = if table.wide {
            proof {
                lemma_be_u64_prefix(entry_slice@, entry);
            }
            be_bytes_of_u64(read_be_u64(entry_slice).wrapping_add(moov_size))
        } else {
            proof {
                lemma_be_u32_prefix(entry_slice@, entry);
            }
            be_bytes_of_u32(
                read_be_u32(entry_slice).wrapping_add((moov_size % 0x1_0000_0000) as u32),
            )
        };
        assert(patched@ == patch_entry(entry, table.wide, moov_size));
        proof {
            lemma_be_bytes_len(
                be_u32(entry).wrapping_add((moov_size % 0x1_0000_0000) as u32),
                be_u64(entry).wrapping_add(moov_size),
            );
        }
        write_at(moov_buffer, at as usize, patched.as_slice());
        proof {
            let grown = all.subrange(first as int, at + width);
            assert(grown.take(grown.len() - width) =~= all.subrange(first as int, at as int));
            assert(grown.skip(grown.len() - width) =~= entry);
            assert(before.take(at as int) =~= head);
            assert(before.skip(at + width) =~= all.skip(at + width));
            assert(moov_buffer@ =~= all.take(first as int) + patch_entries(
                grown,
                table.wide,
                moov_size,
            ) + all.skip(at + width));
            assert((done + 1) * width == done * width + width) by (nonlinear_arith);
        }
        at = at + width;
        done = done + 1;
    }
    Ok(())
}

/// Looks for the first whole box of type `atom_type`, from the first byte of
/// `in_stream` on, and stops behind its header. Without such a box the
/// stream is read to its end; on failure the position stays.
pub fn find_box(in_stream: &mut ByteStream, atom_type: u32) -> (r: Result<
    Option<(u64, BoxHeader)>,
    Error,
>)
    ensures
        final(in_stream).data == old(in_stream).data,
        r == spec_find_box(old(in_stream).data@, 0, atom_type),
        match r {
            Ok(Some((offset, b))) => {
                &&& final(in_stream).pos == offset + b.header_len
                &&& b.header_len <= b.atom.size
                &&& offset + b.atom.size <= old(in_stream).data@.len()
            },
            Ok(None) => final(in_stream).pos == old(in_stream).data@.len(),
            Err(_) => final(in_stream).pos == old(in_stream).pos,
        },
{
    let file_start: u64 = in_stream.position();
    let file_size: u64 = in_stream.len();
    let ghost input = in_stream.data@;
    in_stream.set_position(0);
    while in_stream.position() < file_size
        invariant
            in_stream.data == old(in_stream).data,
            input == old(in_stream).data@,
            file_start == old(in_stream).pos,
            file_size == input.len(),
            in_stream.pos <= file_size,
            spec_find_box(input, 0, atom_type) == spec_find_box(
                input,
                in_stream.pos as int,
                atom_type,
            ),
        decreases file_size - in_stream.pos,
    {
        let atom_offset: u64 = in_stream.position();
        proof {
            lemma_next_box_bounds(in_stream.remaining());
        }
        match read_box(in_stream) {
            Err(e) => {
                in_stream.set_position(file_start);
                return Err(e);
            },
            Ok(None) => {
                in_stream.set_position(file_size);
                return Ok(None);
            },
            Ok(Some(b)) => {
                if b.atom.atom_type == atom_type {
                    return Ok(Some((atom_offset, b)));
                }
                in_stream.set_position(atom_offset + b.atom.size);
            },
        }
    }
    Ok(None)
}

/// Looks for the metadata box, from the first byte of `in_stream` on, and
/// stops behind its header.
pub fn find_moov_atom(in_stream: &mut ByteStream) -> (r: Result<Option<(u64, Atom)>, Error>)
    ensures
        final(in_stream).data == old(in_stream).data,
        match r {
            Ok(Some((offset, atom))) => {
                &&& final(in_stream).pos >= offset
                &&& spec_find_box(old(in_stream).data@, 0, MOOV_ATOM_TYPE) == Ok::<
                    Option<(u64, BoxHeader)>,
                    Error,
                >(
                    Some(
                        (offset, BoxHeader { atom, header_len: (final(in_stream).pos - offset) as u64 }),
                    ),
                )
            },
            Ok(None) => {
                &&& spec_find_box(old(in_stream).data@, 0, MOOV_ATOM_TYPE) == Ok::<
                    Option<(u64, BoxHeader)>,
                    Error,
                >(None)
                &&& final(in_stream).pos == old(in_stream).data@.len()
            },
            Err(e) => {
                &&& spec_find_box(old(in_stream).data@, 0, MOOV_ATOM_TYPE) == Err::<
                    Option<(u64, BoxHeader)>,
                    Error,
                >(e)
                &&& final(in_stream).pos == old(in_stream).pos
            },
        },
{
    match find_box(in_stream, MOOV_ATOM_TYPE) {
        Ok(Some((offset, b))) => Ok(Some((offset, b.atom))),
        Ok(None) => Ok(None),
        Err(e) => Err(e),
    }
}

/// Builds the file with the metadata box moved ahead of the sample data.
/// The stream keeps its bytes.
pub fn relocate(in_stream: &mut ByteStream) -> (r: Result<Vec<u8>, Error>)
    ensures
        final(in_stream).data == old(in_stream).data,
        match r {
            Ok(out) => spec_move_moov(old(in_stream).data@) == Ok::<Seq<u8>, Error>(out@),
            Err(e) => spec_move_moov(old(in_stream).data@) == Err::<Seq<u8>, Error>(e),
        },
{
    let ghost input = in_stream.data@;
    let mut out: Vec<u8> = Vec::new();

    // The compatibility box comes first and is copied as it stands.
    in_stream.set_position(0);
    assert(in_stream.remaining() =~= input);
    proof {
        lemma_next_box_bounds(input);
    }
    let ftyp = match read_box(in_stream) {
        Err(e) => {
            return Err(e);
        },
        Ok(None) => {
            return Err(Error::MissingBox);
        },
        Ok(Some(ftyp)) => ftyp,
    };
    if ftyp.atom.atom_type != FTYP_ATOM_TYPE {
        return Err(Error::MissingBox);
    }
    in_stream.set_position(0);
    match in_stream.read_exact(ftyp.atom.size) {
        Ok(bytes) => {
            append_bytes(&mut out, bytes.as_slice());
        },
        Err(_) => unreached(),
    }
    assert(out@ =~= input.take(ftyp.atom.size as int));

    // The metadata box follows, its offsets corrected for the move.
    let (moov_at, moov) = match find_box(in_stream, MOOV_ATOM_TYPE) {
        Err(e) => {
            return Err(e);
        },
        Ok(None) => {
            return Err(Error::MissingBox);
        },
        Ok(Some(found)) => found,
    };
    in_stream.set_position(moov_at);
    let header = match in_stream.read_exact(moov.header_len) {
        Ok(header) => header,
        Err(_) => unreached(),
    };
    let mut moov_buffer = match in_stream.read_exact(moov.atom.size - moov.header_len) {
        Ok(moov_buffer) => moov_buffer,
        Err(_) => unreached(),
    };
    assert(header@ =~= input.subrange(moov_at as int, moov_at + moov.header_len));
    assert(moov_buffer@ =~= input.subrange(moov_at + moov.header_len, moov_at + moov.atom.size));
    match update_stco_atom(&mut moov_buffer, moov.atom.size) {
        Ok(()) => {},
        Err(e) => {
            return Err(e);
        },
    }
    append_bytes(&mut out, header.as_slice());
    append_bytes(&mut out, moov_buffer.as_slice());
    let ghost moved = out@;

    // The sample data comes last.
    let (mdat_at, mdat) = match find_box(in_stream, MDAT_ATOM_TYPE) {
        Err(e) => {
            return Err(e);
        },
        Ok(None) => {
            return Err(Error::MissingBox);
        },
        Ok(Some(found)) => found,
    };
    in_stream.set_position(mdat_at);
    match in_stream.read_exact(mdat.atom.size) {
        Ok(bytes) => {
            assert(bytes@ =~= input.subrange(mdat_at as int, mdat_at + mdat.atom.size));
            append_bytes(&mut out, bytes.as_slice());
            assert(out@ == moved + bytes@);
        },
        Err(_) => unreached(),
    }
    Ok(out)
}

/// Rewrites the file in `in_stream` so that the metadata box stands ahead of
/// the sample data, and leaves the position at the end of the new file.
/// Boxes other than `ftyp`, `moov` and `mdat` are dropped. On failure the
/// stream is left as it was found.
pub fn move_moov_to_beginning(in_stream: &mut ByteStream) -> (r: Result<(), Error>)
    ensures
        match r {
            Ok(()) => {
                &&& spec_move_moov(old(in_stream).data@) == Ok::<Seq<u8>, Error>(
                    final(in_stream).data@,
                )
                &&& final(in_stream).pos == final(in_stream).data@.len()
            },
            Err(e) => {
                &&& spec_move_moov(old(in_stream).data@) == Err::<Seq<u8>, Error>(e)
                &&& *final(in_stream) == *old(in_stream)
            },
        },
{
    let file_start: u64 = in_stream.position();
    match relocate(in_stream) {
        Ok(out) => {
            let end: u64 = out.len() as u64;
            in_stream.data = out;
            in_stream.pos = end;
            Ok(())
        },
        Err(e) => {
            in_stream.set_position(file_start);
            Err(e)
        },
    }
}

/// `count` entries of `width` bytes fit into `room` bytes if and only if
/// `count` is at most the quotient of the two.
proof fn lemma_entries_fit(count: int, width: int, room: int)
    by (nonlinear_arith)
    requires
        0 <= count,
        0 < width,
        0 <= room,
    ensures
        count <= room / width <==> count * width <= room,
{
}

/// Adding to the entries keeps their number.
pub proof fn lemma_patch_entries_len(entries: Seq<u8>, wide: bool, delta: u64)
    ensures
        patch_entries(entries, wide, delta).len() == entries.len(),
    decreases entries.len(),
{
    let width: int = if wide {
        8
    } else {
        4
    };
    if entries.len() >= width {
        lemma_patch_entries_len(entries.take(entries.len() - width), wide, delta);
        let last = entries.skip(entries.len() - width);
        lemma_be_bytes_len(
            be_u32(last).wrapping_add((delta % 0x1_0000_0000) as u32),
            be_u64(last).wrapping_add(delta),
        );
    }
}

} // verus!
