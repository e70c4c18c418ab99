//! The single pass that turns an encrypted container into a plain one.

use crate::atom::{
    lemma_header_form, lemma_leaf_write_then_read, lemma_next_box_agree, lemma_next_box_bounds,
    lemma_write_then_read, next_box, read_box, AavdAtom, AavdAtomView, Atom, BoxHeader,
    AAVD_ATOM_TYPE, FTYP_ATOM_TYPE, MDAT_ATOM_TYPE, MP4A_ATOM_TYPE,
};
use crate::crypto::{aes128_cbc_decrypt, cbc_decrypt};
use crate::endian::{be_bytes_of_u32, lemma_be_bytes_len, u32_be_bytes};
use crate::error::Error;
use crate::stream::{append_bytes, ByteStream};
use vstd::pervasive::unreached;
use vstd::prelude::*;
use vstd::slice::slice_subrange;

verus! {

/// The compatibility tags of the box that replaces `ftyp`: `M4A `, version
/// 2.0, `iso2`, `M4B `, `mp42`, `isom`.
pub const FTYP_TAGS: [u32; 6] = [
    0x4D344120,
    0x00000200,
    0x69736F32,
    0x4D344220,
    0x6D703432,
    0x69736F6D,
];

/// The box written in place of any `ftyp` box: 32 bytes, the six tags as
/// payload.
pub open spec fn ftyp_replacement() -> Seq<u8> {
    (Atom { size: 32, atom_type: FTYP_ATOM_TYPE }).spec_bytes() + u32_be_bytes(FTYP_TAGS[0])
        + u32_be_bytes(FTYP_TAGS[1]) + u32_be_bytes(FTYP_TAGS[2]) + u32_be_bytes(FTYP_TAGS[3])
        + u32_be_bytes(FTYP_TAGS[4]) + u32_be_bytes(FTYP_TAGS[5])
}

/// `head` followed by `tail`; the first failure wins.
pub open spec fn join(head: Result<Seq<u8>, Error>, tail: Result<Seq<u8>, Error>) -> Result<
    Seq<u8>,
    Error,
> {
    match head {
        Err(e) => Err(e),
        Ok(h) => match tail {
            Err(e) => Err(e),
            Ok(t) => Ok(h + t),
        },
    }
}

/// Whether `after` is `before` with something appended.
pub open spec fn extends(after: Seq<u8>, before: Seq<u8>) -> bool {
    before.len() <= after.len() && after.take(before.len() as int) == before
}

/// What is written for one leaf: an encrypted-audio leaf becomes a
/// plain-audio leaf with its payload decrypted, which asks for a payload of
/// whole blocks; any other leaf is written as it is.
pub open spec fn decrypt_leaf(leaf: AavdAtomView, key: Seq<u8>, iv: Seq<u8>) -> Result<
    Seq<u8>,
    Error,
> {
    if leaf.atom_type != AAVD_ATOM_TYPE {
        Ok(leaf.spec_bytes())
    } else if leaf.data.len() % 16 != 0 {
        Err(Error::MalformedContainer)
    } else {
        Ok(plain_leaf(leaf, key, iv).spec_bytes())
    }
}

/// What is written for the payload of a sample-data box: its leaves one
/// after the other, each decrypted from the same key and vector.
pub open spec fn decrypt_leaves(region: Seq<u8>, key: Seq<u8>, iv: Seq<u8>) -> Result<
    Seq<u8>,
    Error,
>
    decreases region.len(),
{
    match AavdAtom::spec_read(region) {
        Err(e) => Err(e),
        Ok(None) => Ok(Seq::empty()),
        Ok(Some(leaf)) => join(
            decrypt_leaf(leaf, key, iv),
            decrypt_leaves(region.skip(leaf.size as int), key, iv),
        ),
    }
}

/// What is written for one whole box `bytes` with the header `b`: the fixed
/// replacement for `ftyp`; header and decrypted leaves for `mdat`; the box
/// itself for any other type.
pub open spec fn decrypt_box(bytes: Seq<u8>, b: BoxHeader, key: Seq<u8>, iv: Seq<u8>) -> Result<
    Seq<u8>,
    Error,
> {
    if b.atom.atom_type == FTYP_ATOM_TYPE {
        Ok(ftyp_replacement())
    } else if b.atom.atom_type == MDAT_ATOM_TYPE {
        join(
            Ok(bytes.take(b.header_len as int)),
            decrypt_leaves(bytes.skip(b.header_len as int), key, iv),
        )
    } else {
        Ok(bytes)
    }
}

/// What is written for a container: its top-level boxes one after the
/// other, up to the end of the stream.
pub open spec fn decrypt_container(input: Seq<u8>, key: Seq<u8>, iv: Seq<u8>) -> Result<
    Seq<u8>,
    Error,
>
    decreases input.len(),
{
    match next_box(input) {
        Err(e) => Err(e),
        Ok(None) => Ok(Seq::empty()),
        Ok(Some(b)) => {
            proof {
                lemma_next_box_bounds(input);
            }
            join(
                decrypt_box(input.take(b.atom.size as int), b, key, iv),
                decrypt_container(input.skip(b.atom.size as int), key, iv),
            )
        },
    }
}

/// What `process_file` writes for the file `input`.
pub open spec fn spec_process_file(input: Seq<u8>, key: Seq<u8>, iv: Seq<u8>) -> Result<
    Seq<u8>,
    Error,
> {
    if key.len() != 16 || iv.len() != 16 {
        Err(Error::InvalidKeyLength)
    } else {
        decrypt_container(input, key, iv)
    }
}

/// The replacement box is 32 bytes long.
pub proof fn lemma_ftyp_replacement_len()
    ensures
        ftyp_replacement().len() == 32,
{
    lemma_header_form(Atom { size: 32, atom_type: FTYP_ATOM_TYPE });
    lemma_be_bytes_len(FTYP_TAGS[0], 0);
    lemma_be_bytes_len(FTYP_TAGS[1], 0);
    lemma_be_bytes_len(FTYP_TAGS[2], 0);
    lemma_be_bytes_len(FTYP_TAGS[3], 0);
    lemma_be_bytes_len(FTYP_TAGS[4], 0);
    lemma_be_bytes_len(FTYP_TAGS[5], 0);
}

/// The leaves of sample data fail in two ways only: the payload ends
/// inside a header, or a declared size does not fit.
pub proof fn lemma_decrypt_leaves_errors(region: Seq<u8>, key: Seq<u8>, iv: Seq<u8>)
    ensures
        decrypt_leaves(region, key, iv) matches Err(e) ==> e == Error::Io || e
            == Error::MalformedContainer,
    decreases region.len(),
{
    if let Ok(Some(leaf)) = AavdAtom::spec_read(region) {
        lemma_decrypt_leaves_errors(region.skip(leaf.size as int), key, iv);
    }
}

/// Decryption of a container fails in two ways only: the file ends inside
/// a header, or a declared size does not fit.
pub proof fn lemma_decrypt_container_errors(input: Seq<u8>, key: Seq<u8>, iv: Seq<u8>)
    ensures
        decrypt_container(input, key, iv) matches Err(e) ==> e == Error::Io || e
            == Error::MalformedContainer,
    decreases input.len(),
{
    lemma_next_box_bounds(input);
    reveal(next_box);
    if let Ok(Some(b)) = next_box(input) {
        let size = b.atom.size as int;
        lemma_decrypt_leaves_errors(input.take(size).skip(b.header_len as int), key, iv);
        lemma_decrypt_container_errors(input.skip(size), key, iv);
    }
}

/// A file that is one whole box gives what the box gives.
pub proof fn lemma_decrypt_one_box(bytes: Seq<u8>, b: BoxHeader, key: Seq<u8>, iv: Seq<u8>)
    requires
        next_box(bytes) == Ok::<Option<BoxHeader>, Error>(Some(b)),
        b.atom.size == bytes.len(),
    ensures
        decrypt_container(bytes, key, iv) == decrypt_box(bytes, b, key, iv),
{
    let size = b.atom.size as int;
    lemma_next_box_bounds(bytes);
    lemma_next_box_bounds(bytes.skip(size));
    assert(bytes.take(size) =~= bytes);
    assert(decrypt_container(bytes.skip(size), key, iv) == Ok::<Seq<u8>, Error>(Seq::empty()));
    match decrypt_box(bytes, b, key, iv) {
        Ok(out) => {
            assert(out + Seq::<u8>::empty() =~= out);
        },
        Err(_) => {},
    }
}

/// Boxes that decrypt without failure can be followed by anything: the
/// file of both gives what the boxes give, then what the rest gives.
pub proof fn lemma_decrypt_concat(a: Seq<u8>, b: Seq<u8>, key: Seq<u8>, iv: Seq<u8>)
    requires
        decrypt_container(a, key, iv) is Ok,
    ensures
        decrypt_container(a + b, key, iv) == join(
            decrypt_container(a, key, iv),
            decrypt_container(b, key, iv),
        ),
    decreases a.len(),
{
    lemma_next_box_bounds(a);
    if a.len() == 0 {
        assert(a + b =~= b);
        match decrypt_container(b, key, iv) {
            Ok(out) => {
                assert(Seq::<u8>::empty() + out =~= out);
            },
            Err(_) => {},
        }
    } else {
        let first = next_box(a)->Ok_0->Some_0;
        let size = first.atom.size as int;
        assert((a + b).take(first.header_len as int) =~= a.take(first.header_len as int));
        lemma_next_box_agree(a, a + b);
        assert((a + b).take(size) =~= a.take(size));
        assert((a + b).skip(size) =~= a.skip(size) + b);
        lemma_decrypt_concat(a.skip(size), b, key, iv);
        lemma_join_step(
            decrypt_box(a.take(size), first, key, iv)->Ok_0,
            decrypt_container(a.skip(size), key, iv)->Ok_0,
            decrypt_container(b, key, iv),
        );
    }
}

/// Sample data that holds the one leaf `leaf`.
pub open spec fn sample_data_with_leaf(leaf: AavdAtomView) -> Seq<u8> {
    (Atom { size: (8 + leaf.size) as u64, atom_type: MDAT_ATOM_TYPE }).spec_bytes()
        + leaf.spec_bytes()
}

/// The leaf `leaf` with the plain-audio type and its payload decrypted.
pub open spec fn plain_leaf(leaf: AavdAtomView, key: Seq<u8>, iv: Seq<u8>) -> AavdAtomView {
    AavdAtomView {
        size: leaf.size,
        atom_type: MP4A_ATOM_TYPE,
        data: aes128_cbc_decrypt(key, iv, leaf.data),
    }
}

/// A payload that is one leaf gives what the leaf gives.
pub proof fn lemma_decrypt_single_leaf(leaf: AavdAtomView, key: Seq<u8>, iv: Seq<u8>)
    requires
        leaf.size == 8 + leaf.data.len(),
    ensures
        decrypt_leaves(leaf.spec_bytes(), key, iv) == decrypt_leaf(leaf, key, iv),
{
    let region = leaf.spec_bytes();
    lemma_leaf_write_then_read(leaf, Seq::empty());
    assert(region + Seq::<u8>::empty() =~= region);
    assert(region.skip(leaf.size as int) =~= Seq::<u8>::empty());
    assert(decrypt_leaves(Seq::<u8>::empty(), key, iv) == Ok::<Seq<u8>, Error>(Seq::empty()));
    match decrypt_leaf(leaf, key, iv) {
        Ok(out) => {
            assert(out + Seq::<u8>::empty() =~= out);
        },
        Err(_) => {},
    }
}

/// The header of short sample data is read back as a whole box.
proof fn lemma_sample_data_header(leaf: AavdAtomView)
    requires
        leaf.size == 8 + leaf.data.len(),
        8 + leaf.size <= 0xFFFF_FFFF,
    ensures
        ({
            let atom = Atom { size: (8 + leaf.size) as u64, atom_type: MDAT_ATOM_TYPE };
            let bytes = sample_data_with_leaf(leaf);
            &&& next_box(bytes) == Ok::<Option<BoxHeader>, Error>(
                Some(BoxHeader { atom, header_len: 8 }),
            )
            &&& bytes.len() == atom.size
            &&& bytes.take(8) == atom.spec_bytes()
            &&& bytes.skip(8) == leaf.spec_bytes()
        }),
{
    let atom = Atom { size: (8 + leaf.size) as u64, atom_type: MDAT_ATOM_TYPE };
    let bytes = sample_data_with_leaf(leaf);
    lemma_header_form(atom);
    lemma_write_then_read(atom, leaf.spec_bytes());
    lemma_leaf_write_then_read(leaf, Seq::empty());
    reveal(next_box);
    assert(bytes.take(8) =~= atom.spec_bytes());
    assert(bytes.skip(8) =~= leaf.spec_bytes());
}

/// Sample data with one encrypted leaf gives the same box with the leaf
/// made plain: the plain-audio type, the payload decrypted, the sizes kept.
pub proof fn lemma_decrypt_one_leaf(leaf: AavdAtomView, key: Seq<u8>, iv: Seq<u8>)
    requires
        leaf.atom_type == AAVD_ATOM_TYPE,
        leaf.size == 8 + leaf.data.len(),
        leaf.data.len() % 16 == 0,
        8 + leaf.size <= 0xFFFF_FFFF,
    ensures
        decrypt_container(sample_data_with_leaf(leaf), key, iv) == Ok::<Seq<u8>, Error>(
            sample_data_with_leaf(plain_leaf(leaf, key, iv)),
        ),
{
    let atom = Atom { size: (8 + leaf.size) as u64, atom_type: MDAT_ATOM_TYPE };
    let bytes = sample_data_with_leaf(leaf);
    lemma_sample_data_header(leaf);
    lemma_decrypt_one_box(bytes, BoxHeader { atom, header_len: 8 }, key, iv);
    lemma_decrypt_single_leaf(leaf, key, iv);
}

/// A file of a compatibility box, sample data with one encrypted leaf and
/// one box of another kind gives the fixed replacement of 32 bytes, the
/// sample data with the leaf made plain, and the last box as it stands.
pub proof fn lemma_decrypt_typical_file(
    ftyp: Seq<u8>,
    ftyp_header: BoxHeader,
    leaf: AavdAtomView,
    other: Seq<u8>,
    other_header: BoxHeader,
    key: Seq<u8>,
    iv: Seq<u8>,
)
    requires
        next_box(ftyp) == Ok::<Option<BoxHeader>, Error>(Some(ftyp_header)),
        ftyp_header.atom.size == ftyp.len(),
        ftyp_header.atom.atom_type == FTYP_ATOM_TYPE,
        leaf.atom_type == AAVD_ATOM_TYPE,
        leaf.size == 8 + leaf.data.len(),
        leaf.data.len() % 16 == 0,
        8 + leaf.size <= 0xFFFF_FFFF,
        next_box(other) == Ok::<Option<BoxHeader>, Error>(Some(other_header)),
        other_header.atom.size == other.len(),
        other_header.atom.atom_type != FTYP_ATOM_TYPE,
        other_header.atom.atom_type != MDAT_ATOM_TYPE,
    ensures
        decrypt_container(ftyp + sample_data_with_leaf(leaf) + other, key, iv) == Ok::<
            Seq<u8>,
            Error,
        >(ftyp_replacement() + sample_data_with_leaf(plain_leaf(leaf, key, iv)) + other),
        ftyp_replacement().len() == 32,
{
    let mdat = sample_data_with_leaf(leaf);
    lemma_decrypt_one_box(ftyp, ftyp_header, key, iv);
    lemma_decrypt_one_leaf(leaf, key, iv);
    lemma_decrypt_one_box(other, other_header, key, iv);
    lemma_decrypt_concat(mdat, other, key, iv);
    lemma_decrypt_concat(ftyp, mdat + other, key, iv);
    lemma_ftyp_replacement_len();
    assert(ftyp + mdat + other =~= ftyp + (mdat + other));
    let plain = sample_data_with_leaf(plain_leaf(leaf, key, iv));
    assert(ftyp_replacement() + plain + other =~= ftyp_replacement() + (plain + other));
}

/// Appends the box that replaces `ftyp`.
fn write_ftyp_replacement(out: &mut Vec<u8>)
    ensures
        final(out)@ == old(out)@ + ftyp_replacement(),
{
    let header = Atom { size: 32, atom_type: FTYP_ATOM_TYPE };
    let _ = header.write(out);
    append_bytes(out, be_bytes_of_u32(FTYP_TAGS[0]).as_slice());
    append_bytes(out, be_bytes_of_u32(FTYP_TAGS[1]).as_slice());
    append_bytes(out, be_bytes_of_u32(FTYP_TAGS[2]).as_slice());
    append_bytes(out, be_bytes_of_u32(FTYP_TAGS[3]).as_slice());
    append_bytes(out, be_bytes_of_u32(FTYP_TAGS[4]).as_slice());
    append_bytes(out, be_bytes_of_u32(FTYP_TAGS[5]).as_slice());
    assert(final(out)@ =~= old(out)@ + ftyp_replacement());
}

/// Writing `a`, then `b`, then what is left is writing `a + b`, then what is
/// left.
proof fn lemma_join_step(a: Seq<u8>, b: Seq<u8>, rest: Result<Seq<u8>, Error>)
    ensures
        join(Ok(a), join(Ok(b), rest)) == join(Ok(a + b), rest),
{
    if let Ok(t) = rest {
        assert(a + (b + t) =~= (a + b) + t);
    }
}

/// Decrypts one leaf and appends it to `out`.
fn write_leaf(leaf: AavdAtom, out: &mut Vec<u8>, key: &[u8], iv: &[u8]) -> (r: Result<(), Error>)
    requires
        key@.len() == 16,
        iv@.len() == 16,
    ensures
        match r {
            Ok(()) => join(Ok(old(out)@), decrypt_leaf(leaf@, key@, iv@)) == Ok::<Seq<u8>, Error>(
                final(out)@,
            ),
            Err(e) => decrypt_leaf(leaf@, key@, iv@) == Err::<Seq<u8>, Error>(e) && final(out)@
                == old(out)@,
        },
{
    if leaf.atom_type == AAVD_ATOM_TYPE {
        match cbc_decrypt(key, iv, leaf.data.as_slice()) {
            Some(plain) => {
                let _ = leaf.into_plain(plain).write(out);
                Ok(())
            },
            None => Err(Error::MalformedContainer),
        }
    } else {
        let _ = leaf.write(out);
        Ok(())
    }
}

/// Decrypts the leaves of `region`, from its first byte on, and appends them
/// to `out`.
fn write_leaves(region: &mut ByteStream, out: &mut Vec<u8>, key: &[u8], iv: &[u8]) -> (r: Result<
    (),
    Error,
>)
    requires
        old(region).pos == 0,
        key@.len() == 16,
        iv@.len() == 16,
    ensures
        final(region).data == old(region).data,
        match r {
            Ok(()) => join(Ok(old(out)@), decrypt_leaves(old(region).data@, key@, iv@)) == Ok::<
                Seq<u8>,
                Error,
            >(final(out)@),
            Err(e) => {
                &&& decrypt_leaves(old(region).data@, key@, iv@) == Err::<Seq<u8>, Error>(e)
                &&& extends(final(out)@, old(out)@)
            },
        },
{
    let ghost all = region.data@;
    let ghost out0 = out@;
    let ghost emitted = Seq::<u8>::empty();
    let len: u64 = region.len();
    assert(all.skip(0) =~= all);
    assert(out0 + emitted =~= out0);
    loop
        invariant
            all == old(region).data@,
            out0 == old(out)@,
            region.data == old(region).data,
            region.pos <= all.len(),
            len == all.len(),
            key@.len() == 16,
            iv@.len() == 16,
            out@ == out0 + emitted,
            decrypt_leaves(all, key@, iv@) == join(
                Ok(emitted),
                decrypt_leaves(all.skip(region.pos as int), key@, iv@),
            ),
        decreases all.len() - region.pos,
    {
        let ghost pos = region.pos as int;
        let ghost s = all.skip(pos);
        match AavdAtom::read(region) {
            Err(e) => {
                assert(out@.take(out0.len() as int) =~= out0);
                return Err(e);
            },
            Ok(None) => {
                assert(emitted + Seq::<u8>::empty() =~= emitted);
                return Ok(());
            },
            Ok(Some(leaf)) => {
                let ghost leaf_view = leaf@;
                let ghost before = out@;
                assert(s.skip(leaf_view.size as int) =~= all.skip(pos + leaf_view.size));
                match write_leaf(leaf, out, key, iv) {
                    Err(e) => {
                        assert(out@.take(out0.len() as int) =~= out0);
                        return Err(e);
                    },
                    Ok(()) => {
                        proof {
                            let bytes = decrypt_leaf(leaf_view, key@, iv@)->Ok_0;
                            lemma_join_step(
                                emitted,
                                bytes,
                                decrypt_leaves(all.skip(pos + leaf_view.size), key@, iv@),
                            );
                            assert(out@ =~= out0 + (emitted + bytes));
                            emitted = emitted + bytes;
                        }
                    },
                }
            },
        }
    }
}

/// Decrypts the box with the header `b`, which `in_stream` has just read,
/// appends it to `out`, and moves to the end of the box.
fn write_box(in_stream: &mut ByteStream, out: &mut Vec<u8>, b: BoxHeader, key: &[u8], iv: &[u8]) -> (r:
    Result<(), Error>)
    requires
        key@.len() == 16,
        iv@.len() == 16,
        b.header_len <= old(in_stream).pos,
        b.header_len <= b.atom.size,
        old(in_stream).pos - b.header_len + b.atom.size <= old(in_stream).data@.len(),
    ensures
        final(in_stream).data == old(in_stream).data,
        ({
            let start = old(in_stream).pos - b.header_len;
            let whole = old(in_stream).data@.subrange(start, start + b.atom.size);
            match r {
                Ok(()) => {
                    &&& join(Ok(old(out)@), decrypt_box(whole, b, key@, iv@)) == Ok::<
                        Seq<u8>,
                        Error,
                    >(final(out)@)
                    &&& final(in_stream).pos == start + b.atom.size
                },
                Err(e) => {
                    &&& decrypt_box(whole, b, key@, iv@) == Err::<Seq<u8>, Error>(e)
                    &&& extends(final(out)@, old(out)@)
                },
            }
        }),
{
    let len: u64 = in_stream.len();
    let start: u64 = in_stream.position() - b.header_len;
    let ghost whole = in_stream.data@.subrange(start as int, start + b.atom.size);
    if b.atom.atom_type == FTYP_ATOM_TYPE {
        write_ftyp_replacement(out);
        in_stream.set_position(start + b.atom.size);
        Ok(())
    } else if b.atom.atom_type == MDAT_ATOM_TYPE {
        let header = slice_subrange(
            in_stream.get_ref().as_slice(),
            start as usize,
            (start + b.header_len) as usize,
        );
        append_bytes(out, header);
        assert(header@ =~= whole.take(b.header_len as int));
        let payload = match in_stream.read_exact(b.atom.size - b.header_len) {
            Ok(payload) => payload,
            Err(_) => unreached(),
        };
        assert(payload@ =~= whole.skip(b.header_len as int));
        let mut region = ByteStream::new(payload);
        let ghost before = out@;
        let r = write_leaves(&mut region, out, key, iv);
        proof {
            lemma_join_step(old(out)@, header@, decrypt_leaves(payload@, key@, iv@));
            if r is Err {
                let n = old(out)@.len() as int;
                assert(before.take(n) =~= old(out)@);
                assert(out@.take(n) =~= out@.take(before.len() as int).take(n));
            }
        }
        r
    } else {
        in_stream.set_position(start);
        match in_stream.read_exact(b.atom.size) {
            Ok(bytes) => {
                assert(bytes@ =~= whole);
                append_bytes(out, bytes.as_slice());
                Ok(())
            },
            Err(_) => unreached(),
        }
    }
}

/// Decrypts the boxes of `in_stream`, from its position on, and appends them
/// to `out`.
fn write_boxes(in_stream: &mut ByteStream, out: &mut Vec<u8>, key: &[u8], iv: &[u8]) -> (r: Result<
    (),
    Error,
>)
    requires
        key@.len() == 16,
        iv@.len() == 16,
    ensures
        final(in_stream).data == old(in_stream).data,
        match r {
            Ok(()) => join(Ok(old(out)@), decrypt_container(old(in_stream).remaining(), key@, iv@))
                == Ok::<Seq<u8>, Error>(final(out)@),
            Err(e) => {
                &&& decrypt_container(old(in_stream).remaining(), key@, iv@) == Err::<
                    Seq<u8>,
                    Error,
                >(e)
                &&& extends(final(out)@, old(out)@)
            },
        },
{
    let ghost all = in_stream.remaining();
    let ghost base = in_stream.pos as int;
    let ghost out0 = out@;
    let ghost emitted = Seq::<u8>::empty();
    assert(out0 + emitted =~= out0);
    let len: u64 = in_stream.len();
    if in_stream.position() > len {
        proof {
            lemma_next_box_bounds(all);
        }
        return Ok(());
    }
    assert(all.skip(0) =~= all);
    loop
        invariant
            in_stream.data == old(in_stream).data,
            base == old(in_stream).pos,
            base <= in_stream.pos <= in_stream.data@.len(),
            all == old(in_stream).remaining(),
            out0 == old(out)@,
            in_stream.data@.len() == len,
            key@.len() == 16,
            iv@.len() == 16,
            out@ == out0 + emitted,
            decrypt_container(all, key@, iv@) == join(
                Ok(emitted),
                decrypt_container(all.skip(in_stream.pos - base), key@, iv@),
            ),
        decreases in_stream.data@.len() - in_stream.pos,
    {
        let ghost start = in_stream.pos as int;
        let ghost s = in_stream.remaining();
        assert(s =~= all.skip(start - base));
        proof {
            lemma_next_box_bounds(s);
        }
        let b = match read_box(in_stream) {
            Err(e) => {
                assert(out@.take(out0.len() as int) =~= out0);
                return Err(e);
            },
            Ok(None) => {
                assert(emitted + Seq::<u8>::empty() =~= emitted);
                return Ok(());
            },
            Ok(Some(b)) => b,
        };
        let ghost size = b.atom.size as int;
        let ghost rest = decrypt_container(s.skip(size), key@, iv@);
        let ghost whole = s.take(size);
        assert(s.skip(size) =~= all.skip(start + size - base));
        assert(whole =~= in_stream.data@.subrange(start, start + size));
        let ghost before = out@;
        match write_box(in_stream, out, b, key, iv) {
            Err(e) => {
                assert(out@.take(out0.len() as int) =~= out0);
                return Err(e);
            },
            Ok(()) => {
                proof {
                    let bytes = decrypt_box(whole, b, key@, iv@)->Ok_0;
                    assert(out@ =~= before + bytes);
                    lemma_join_step(emitted, bytes, rest);
                    assert(out@ =~= out0 + (emitted + bytes));
                    emitted = emitted + bytes;
                }
            },
        }
    }
}

/// Decrypts the container in `in_stream`, read from its first byte to its
/// last, and appends the plain container to `out_stream`. On failure both
/// streams are left as they were found.
pub fn process_file(in_stream: &mut ByteStream, out_stream: &mut Vec<u8>, key: &[u8], iv: &[u8]) -> (r:
    Result<(), Error>)
    ensures
        final(in_stream).data == old(in_stream).data,
        match r {
            Ok(()) => {
                &&& join(
                    Ok(old(out_stream)@),
                    spec_process_file(old(in_stream).data@, key@, iv@),
                ) == Ok::<Seq<u8>, Error>(final(out_stream)@)
                &&& final(in_stream).pos == old(in_stream).data@.len()
            },
            Err(e) => {
                &&& spec_process_file(old(in_stream).data@, key@, iv@) == Err::<Seq<u8>, Error>(e)
                &&& final(out_stream)@ == old(out_stream)@
                &&& final(in_stream).pos == old(in_stream).pos
            },
        },
{
    if key.len() != 16 || iv.len() != 16 {
        return Err(Error::InvalidKeyLength);
    }
    let file_start: u64 = in_stream.position();
    let written: usize = out_stream.len();
    in_stream.set_position(0);
    assert(in_stream.remaining() =~= in_stream.data@);
    match write_boxes(in_stream, out_stream, key, iv) {
        Ok(()) => {
            let end: u64 = in_stream.len();
            in_stream.set_position(end);
            Ok(())
        },
        Err(e) => {
            out_stream.truncate(written);
            assert(out_stream@ =~= old(out_stream)@);
            in_stream.set_position(file_start);
            Err(e)
        },
    }
}

} // verus!
