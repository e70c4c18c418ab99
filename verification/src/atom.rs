//! Box headers and the leaf boxes nested inside the sample-data box.

use crate::endian::{
    be_bytes_of_u32, be_bytes_of_u64, be_u32, be_u64, lemma_be_bytes_len, lemma_be_u32_of_bytes,
    lemma_be_u32_prefix, lemma_be_u64_of_bytes, lemma_be_u64_prefix, read_be_u32, read_be_u64,
    u32_be_bytes, u64_be_bytes,
};
use crate::error::Error;
use crate::stream::{append_bytes, ByteStream};
use vstd::prelude::*;
use vstd::slice::{slice_subrange, slice_to_vec};

verus! {

/// `ftyp`, the compatibility box.
pub const FTYP_ATOM_TYPE: u32 = 0x66747970;

/// `mdat`, the sample-data box.
pub const MDAT_ATOM_TYPE: u32 = 0x6d646174;

/// `moov`, the metadata box.
pub const MOOV_ATOM_TYPE: u32 = 0x6d6f6f76;

/// `stco`, the table of 32-bit chunk offsets.
pub const STCO_ATOM_TYPE: u32 = 0x7374636f;

/// `co64`, the table of 64-bit chunk offsets.
pub const CO64_ATOM_TYPE: u32 = 0x636f3634;

/// `aavd`, a leaf of encrypted audio.
pub const AAVD_ATOM_TYPE: u32 = 0x61617664;

/// `mp4a`, a leaf of plain audio.
pub const MP4A_ATOM_TYPE: u32 = 0x6d703461;

/// The header of a box: its total size in bytes, header counted, and its
/// four-byte type code.
#[derive(Debug, Clone, Copy, PartialEq, Eq, Structural)]
pub struct Atom {
    pub size: u64,
    pub atom_type: u32,
}

impl Atom {
    /// The bytes of the header: the short form of eight bytes where the size
    /// fits 32 bits, else the marker `1`, the type and the 64-bit size.
    pub open spec fn spec_bytes(&self) -> Seq<u8> {
        if self.size > 0xFFFF_FFFF {
            u32_be_bytes(1) + u32_be_bytes(self.atom_type) + u64_be_bytes(self.size)
        } else {
            u32_be_bytes(self.size as u32) + u32_be_bytes(self.atom_type)
        }
    }

    /// The length of the header that starts `s`: sixteen bytes where the
    /// 32-bit size field holds the marker `1`, else eight.
    pub open spec fn spec_header_len(s: Seq<u8>) -> nat {
        if be_u32(s) == 1 {
            16
        } else {
            8
        }
    }

    /// What reading a header from the bytes `s` gives: nothing at the end of
    /// the stream, an error where the stream ends inside the header, else
    /// the header.
    pub open spec fn spec_read(s: Seq<u8>) -> Result<Option<Atom>, Error> {
        if s.len() == 0 {
            Ok(None)
        } else if s.len() < 8 {
            Err(Error::Io)
        } else if be_u32(s) != 1 {
            Ok(Some(Atom { size: be_u32(s) as u64, atom_type: be_u32(s.skip(4)) }))
        } else if s.len() < 16 {
            Err(Error::Io)
        } else {
            Ok(Some(Atom { size: be_u64(s.skip(8)), atom_type: be_u32(s.skip(4)) }))
        }
    }

    /// Reads the header that starts `bytes`, and says how long it is.
    pub fn parse(bytes: &[u8]) -> (r: Result<Option<(Atom, u64)>, Error>)
        ensures
            match r {
                Ok(Some((atom, header_len))) => {
                    &&& Atom::spec_read(bytes@) == Ok::<Option<Atom>, Error>(Some(atom))
                    &&& header_len == Atom::spec_header_len(bytes@)
                },
                Ok(None) => Atom::spec_read(bytes@) == Ok::<Option<Atom>, Error>(None),
                Err(e) => Atom::spec_read(bytes@) == Err::<Option<Atom>, Error>(e),
            },
    {
        let len: usize = bytes.len();
        if len == 0 {
            return Ok(None);
        }
        if len < 8 {
            return Err(Error::Io);
        }
        let size32: u32 = read_be_u32(bytes);
        let atom_type: u32 = read_be_u32(slice_subrange(bytes, 4, len));
        if size32 != 1 {
            return Ok(Some((Atom { size: size32 as u64, atom_type }, 8)));
        }
        if len < 16 {
            return Err(Error::Io);
        }
        let size: u64 = read_be_u64(slice_subrange(bytes, 8, len));
        Ok(Some((Atom { size, atom_type }, 16)))
    }

    /// Reads one header at the position of `reader` and moves past it.
    /// Where no header is read the position stays.
    pub fn read(reader: &mut ByteStream) -> (r: Result<Option<Atom>, Error>)
        ensures
            final(reader).data == old(reader).data,
            r == Atom::spec_read(old(reader).remaining()),
            final(reader).pos == old(reader).pos + (if r matches Ok(Some(_)) {
                Atom::spec_header_len(old(reader).remaining())
            } else {
                0
            }),
    {
        match Atom::parse(reader.remaining_slice()) {
            Ok(Some((atom, header_len))) => {
                reader.set_position(reader.position() + header_len);
                Ok(Some(atom))
            },
            Ok(None) => Ok(None),
            Err(e) => Err(e),
        }
    }

    /// Appends the header to `writer`. Writing to memory does not fail.
    pub fn write(&self, writer: &mut Vec<u8>) -> (r: Result<(), Error>)
        ensures
            r is Ok,
            final(writer)@ == old(writer)@ + self.spec_bytes(),
    {
        if self.size > 0xFFFF_FFFF {
            append_bytes(writer, be_bytes_of_u32(1).as_slice());
            append_bytes(writer, be_bytes_of_u32(self.atom_type).as_slice());
            append_bytes(writer, be_bytes_of_u64(self.size).as_slice());
        } else {
            append_bytes(writer, be_bytes_of_u32(self.size as u32).as_slice());
            append_bytes(writer, be_bytes_of_u32(self.atom_type).as_slice());
        }
        assert(final(writer)@ =~= old(writer)@ + self.spec_bytes());
        Ok(())
    }
}

/// A box header that has been held against the bytes it stands in: the box
/// is no shorter than its header and ends within the stream.
#[derive(Debug, Clone, Copy, PartialEq, Eq, Structural)]
pub struct BoxHeader {
    pub atom: Atom,
    /// Eight or sixteen.
    pub header_len: u64,
}

/// The next whole box of `s`: nothing at the end of the stream; an error
/// where the stream ends inside the header, where the declared size is
/// smaller than the header, or where it exceeds the bytes that are left.
/// Opaque; `lemma_next_box_bounds` says what follows from it.
#[verifier::opaque]
pub open spec fn next_box(s: Seq<u8>) -> Result<Option<BoxHeader>, Error> {
    match Atom::spec_read(s) {
        Err(e) => Err(e),
        Ok(None) => Ok(None),
        Ok(Some(atom)) => if atom.size < Atom::spec_header_len(s) || atom.size > s.len() {
            Err(Error::MalformedContainer)
        } else {
            Ok(Some(BoxHeader { atom, header_len: Atom::spec_header_len(s) as u64 }))
        },
    }
}

/// A whole box has a header of eight or sixteen bytes, is no shorter than
/// its header and ends within the stream.
pub proof fn lemma_next_box_bounds(s: Seq<u8>)
    ensures
        match next_box(s) {
            Ok(Some(b)) => {
                &&& b.header_len == 8 || b.header_len == 16
                &&& b.header_len <= b.atom.size <= s.len()
                &&& b.header_len == Atom::spec_header_len(s)
                &&& Atom::spec_read(s) == Ok::<Option<Atom>, Error>(Some(b.atom))
            },
            Ok(None) => s.len() == 0,
            Err(_) => s.len() > 0,
        },
{
    reveal(next_box);
}

/// Reading a header looks at the bytes of the header alone: a stream that
/// starts with the same header gives the same.
pub proof fn lemma_spec_read_agree(s1: Seq<u8>, s2: Seq<u8>)
    requires
        Atom::spec_read(s1) matches Ok(Some(_)),
        s2.len() >= Atom::spec_header_len(s1),
        s2.take(Atom::spec_header_len(s1) as int) == s1.take(Atom::spec_header_len(s1) as int),
    ensures
        Atom::spec_read(s2) == Atom::spec_read(s1),
        Atom::spec_header_len(s2) == Atom::spec_header_len(s1),
{
    let h = Atom::spec_header_len(s1) as int;
    assert(s1.take(4) =~= s1.take(h).take(4));
    assert(s2.take(4) =~= s2.take(h).take(4));
    lemma_be_u32_prefix(s1, s2);
    assert(s1.skip(4).take(4) =~= s1.take(h).subrange(4, 8));
    assert(s2.skip(4).take(4) =~= s2.take(h).subrange(4, 8));
    lemma_be_u32_prefix(s1.skip(4), s2.skip(4));
    if h == 16 {
        assert(s1.skip(8).take(8) =~= s1.take(h).subrange(8, 16));
        assert(s2.skip(8).take(8) =~= s2.take(h).subrange(8, 16));
        lemma_be_u64_prefix(s1.skip(8), s2.skip(8));
    }
}

/// A whole box is known by its header: a stream that starts with the same
/// header and is long enough for the box starts with the same whole box.
pub proof fn lemma_next_box_agree(s1: Seq<u8>, s2: Seq<u8>)
    requires
        next_box(s1) matches Ok(Some(b)) && s2.len() >= b.atom.size && s2.take(
            b.header_len as int,
        ) == s1.take(b.header_len as int),
    ensures
        next_box(s2) == next_box(s1),
{
    lemma_next_box_bounds(s1);
    reveal(next_box);
    lemma_spec_read_agree(s1, s2);
}

/// Reads the header of the whole box that starts `bytes`.
pub fn parse_box(bytes: &[u8]) -> (r: Result<Option<BoxHeader>, Error>)
    ensures
        r == next_box(bytes@),
{
    proof {
        reveal(next_box);
    }
    match Atom::parse(bytes) {
        Err(e) => Err(e),
        Ok(None) => Ok(None),
        Ok(Some((atom, header_len))) => {
            if atom.size < header_len || atom.size > bytes.len() as u64 {
                Err(Error::MalformedContainer)
            } else {
                Ok(Some(BoxHeader { atom, header_len }))
            }
        },
    }
}

/// Reads the header of the next whole box and moves past the header. Where
/// none is read the position stays.
pub fn read_box(reader: &mut ByteStream) -> (r: Result<Option<BoxHeader>, Error>)
    ensures
        final(reader).data == old(reader).data,
        r == next_box(old(reader).remaining()),
        final(reader).pos == old(reader).pos + (match r {
            Ok(Some(b)) => b.header_len,
            _ => 0,
        }),
{
    proof {
        lemma_next_box_bounds(reader.remaining());
    }
    match parse_box(reader.remaining_slice()) {
        Ok(Some(b)) => {
            reader.set_position(reader.position() + b.header_len);
            Ok(Some(b))
        },
        Ok(None) => Ok(None),
        Err(e) => Err(e),
    }
}

/// A size above 32 bits is written in the extended form of sixteen bytes,
/// behind the marker `1`; any other size in the short form of eight bytes.
pub proof fn lemma_header_form(atom: Atom)
    ensures
        atom.size > 0xFFFF_FFFF ==> atom.spec_bytes().len() == 16 && be_u32(atom.spec_bytes()) == 1,
        atom.size <= 0xFFFF_FFFF ==> atom.spec_bytes().len() == 8 && be_u32(atom.spec_bytes())
            == atom.size,
{
    let ty = u32_be_bytes(atom.atom_type);
    lemma_be_bytes_len(atom.atom_type, atom.size);
    if atom.size > 0xFFFF_FFFF {
        lemma_be_u32_of_bytes(1, ty + u64_be_bytes(atom.size));
        assert(atom.spec_bytes() =~= u32_be_bytes(1) + (ty + u64_be_bytes(atom.size)));
    } else {
        lemma_be_u32_of_bytes(atom.size as u32, ty);
    }
}

/// A header whose size is not the marker `1` is read back as it was written,
/// whatever follows it, and the header read is as long as the bytes written.
pub proof fn lemma_write_then_read(atom: Atom, rest: Seq<u8>)
    requires
        atom.size != 1,
    ensures
        Atom::spec_read(atom.spec_bytes() + rest) == Ok::<Option<Atom>, Error>(Some(atom)),
        Atom::spec_header_len(atom.spec_bytes() + rest) == atom.spec_bytes().len(),
{
    lemma_header_form(atom);
    let s = atom.spec_bytes() + rest;
    let ty = u32_be_bytes(atom.atom_type);
    lemma_be_bytes_len(atom.atom_type, atom.size);
    if atom.size > 0xFFFF_FFFF {
        let wide = u64_be_bytes(atom.size);
        lemma_be_u32_of_bytes(1, ty + wide + rest);
        lemma_be_u32_of_bytes(atom.atom_type, wide + rest);
        lemma_be_u64_of_bytes(atom.size, rest);
        assert(s =~= u32_be_bytes(1) + (ty + wide + rest));
        assert(s.skip(4) =~= ty + (wide + rest));
        assert(s.skip(8) =~= wide + rest);
    } else {
        let narrow = u32_be_bytes(atom.size as u32);
        lemma_be_u32_of_bytes(atom.size as u32, ty + rest);
        lemma_be_u32_of_bytes(atom.atom_type, rest);
        assert(s =~= narrow + (ty + rest));
        assert(s.skip(4) =~= ty + rest);
    }
}

/// The value of a leaf box: its declared size, its type and its payload.
pub struct AavdAtomView {
    pub size: u32,
    pub atom_type: u32,
    pub data: Seq<u8>,
}

/// A box nested inside the sample-data box, payload held in memory. Its
/// header always has the short form.
#[derive(Debug, Clone, PartialEq, Eq)]
pub struct AavdAtom {
    pub size: u32,
    pub atom_type: u32,
    pub data: Vec<u8>,
}

impl View for AavdAtom {
    type V = AavdAtomView;

    open spec fn view(&self) -> AavdAtomView {
        AavdAtomView { size: self.size, atom_type: self.atom_type, data: self.data@ }
    }
}

impl AavdAtomView {
    /// The bytes of the leaf: size, type, payload.
    pub open spec fn spec_bytes(self) -> Seq<u8> {
        u32_be_bytes(self.size) + u32_be_bytes(self.atom_type) + self.data
    }
}

impl AavdAtom {
    /// What reading a leaf from the bytes `s` gives: nothing at the end of
    /// the stream; an error where the stream ends inside the header, where
    /// the declared size is smaller than the header, or where it exceeds the
    /// bytes that are left; else the leaf with its `size - 8` payload bytes.
    pub open spec fn spec_read(s: Seq<u8>) -> Result<Option<AavdAtomView>, Error> {
        if s.len() == 0 {
            Ok(None)
        } else if s.len() < 8 {
            Err(Error::Io)
        } else if be_u32(s) < 8 || be_u32(s) > s.len() {
            Err(Error::MalformedContainer)
        } else {
            Ok(
                Some(
                    AavdAtomView {
                        size: be_u32(s),
                        atom_type: be_u32(s.skip(4)),
                        data: s.subrange(8, be_u32(s) as int),
                    },
                ),
            )
        }
    }

    /// Reads the leaf that starts `bytes`.
    pub fn parse(bytes: &[u8]) -> (r: Result<Option<AavdAtom>, Error>)
        ensures
            match r {
                Ok(Some(leaf)) => AavdAtom::spec_read(bytes@) == Ok::<Option<AavdAtomView>, Error>(
                    Some(leaf@),
                ),
                Ok(None) => AavdAtom::spec_read(bytes@) == Ok::<Option<AavdAtomView>, Error>(None),
                Err(e) => AavdAtom::spec_read(bytes@) == Err::<Option<AavdAtomView>, Error>(e),
            },
    {
        let len: usize = bytes.len();
        if len == 0 {
            return Ok(None);
        }
        if len < 8 {
            return Err(Error::Io);
        }
        let size: u32 = read_be_u32(bytes);
        let atom_type: u32 = read_be_u32(slice_subrange(bytes, 4, len));
        if size < 8 || size as u64 > len as u64 {
            return Err(Error::MalformedContainer);
        }
        let data = slice_to_vec(slice_subrange(bytes, 8, size as usize));
        Ok(Some(AavdAtom { size, atom_type, data }))
    }

    /// Reads one leaf at the position of `reader` and moves past it. Where
    /// no leaf is read the position stays.
    pub fn read(reader: &mut ByteStream) -> (r: Result<Option<AavdAtom>, Error>)
        ensures
            final(reader).data == old(reader).data,
            match r {
                Ok(Some(leaf)) => {
                    &&& AavdAtom::spec_read(old(reader).remaining()) == Ok::<
                        Option<AavdAtomView>,
                        Error,
                    >(Some(leaf@))
                    &&& final(reader).pos == old(reader).pos + leaf.size
                },
                Ok(None) => {
                    &&& AavdAtom::spec_read(old(reader).remaining()) == Ok::<
                        Option<AavdAtomView>,
                        Error,
                    >(None)
                    &&& final(reader).pos == old(reader).pos
                },
                Err(e) => {
                    &&& AavdAtom::spec_read(old(reader).remaining()) == Err::<
                        Option<AavdAtomView>,
                        Error,
                    >(e)
                    &&& final(reader).pos == old(reader).pos
                },
            },
    {
        match AavdAtom::parse(reader.remaining_slice()) {
            Ok(Some(leaf)) => {
                reader.set_position(reader.position() + leaf.size as u64);
                Ok(Some(leaf))
            },
            Ok(None) => Ok(None),
            Err(e) => Err(e),
        }
    }

    /// The leaf after decryption: the plain-audio type, `plain` as payload,
    /// the declared size kept.
    pub fn into_plain(self, plain: Vec<u8>) -> (r: AavdAtom)
        ensures
            r@ == (AavdAtomView { size: self.size, atom_type: MP4A_ATOM_TYPE, data: plain@ }),
    {
        AavdAtom { size: self.size, atom_type: MP4A_ATOM_TYPE, data: plain }
    }

    /// Appends the leaf to `writer`. Writing to memory does not fail.
    pub fn write(&self, writer: &mut Vec<u8>) -> (r: Result<(), Error>)
        ensures
            r is Ok,
            final(writer)@ == old(writer)@ + self@.spec_bytes(),
    {
        append_bytes(writer, be_bytes_of_u32(self.size).as_slice());
        append_bytes(writer, be_bytes_of_u32(self.atom_type).as_slice());
        append_bytes(writer, self.data.as_slice());
        assert(final(writer)@ =~= old(writer)@ + self@.spec_bytes());
        Ok(())
    }
}

/// A leaf whose declared size is that of its header and payload is read
/// back as it was written, whatever follows it.
pub proof fn lemma_leaf_write_then_read(leaf: AavdAtomView, rest: Seq<u8>)
    requires
        leaf.size == 8 + leaf.data.len(),
    ensures
        AavdAtom::spec_read(leaf.spec_bytes() + rest) == Ok::<Option<AavdAtomView>, Error>(
            Some(leaf),
        ),
        leaf.spec_bytes().len() == leaf.size,
{
    let s = leaf.spec_bytes() + rest;
    let ty = u32_be_bytes(leaf.atom_type);
    lemma_be_bytes_len(leaf.atom_type, 0);
    lemma_be_u32_of_bytes(leaf.size, ty + leaf.data + rest);
    lemma_be_u32_of_bytes(leaf.atom_type, leaf.data + rest);
    assert(s =~= u32_be_bytes(leaf.size) + (ty + leaf.data + rest));
    assert(s.skip(4) =~= ty + (leaf.data + rest));
    assert(s.subrange(8, leaf.size as int) =~= leaf.data);
}

} // verus!
