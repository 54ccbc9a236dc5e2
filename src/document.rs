use vstd::prelude::*;
use crate::binary::{
    be_file, enc_file, enc_le_header_file, encode_be, encode_le, le_file, lemma_file_round_trip,
    lemma_le_header_round_trip, wf_tag,
};
use crate::envelope::{
    gunzip_of, gzip_compress, gzip_of, lz4_compress, lz4_of, unzlib_of, zlib_compress, zlib_of,
};
use crate::format::{ChunkFileFormat, NbtFileFormat};
use crate::nbt::{is_container, NbtTag, Tag, MAX_DEPTH};
use crate::region::{encode_region, region_fits, region_laid_out, NbtRegion, RegionChunk};
use crate::snbt::{float_free, to_snbt, text_of};

verus! {

/// An open document: a tag tree, or a region container of chunks.
#[derive(Debug, PartialEq, Eq)]
pub enum NbtDocument {
    Tree(NbtTag),
    Region(NbtRegion),
}

pub enum DocView {
    Tree(Tag),
    Region(Seq<RegionChunk>),
}

impl NbtDocument {
    pub open spec fn view(&self) -> DocView {
        match self {
            NbtDocument::Tree(t) => DocView::Tree(t.view()),
            NbtDocument::Region(r) => DocView::Region(r.view()),
        }
    }

    /// Whether this may be the root of an open document: a compound, a list,
    /// or a region container.
    pub fn is_root_shape(&self) -> (r: bool)
        ensures
            r == root_shape(self.view()),
    {
        match self {
            NbtDocument::Tree(t) => t.is_compound() || t.is_list(),
            NbtDocument::Region(_) => true,
        }
    }
}

pub open spec fn root_shape(d: DocView) -> bool {
    match d {
        DocView::Tree(t) => is_container(t),
        DocView::Region(_) => true,
    }
}

/// The bytes of a tag tree saved in format `f`. The text form is that of a
/// float-free tree.
pub open spec fn tree_bytes(f: NbtFileFormat, t: Tag) -> Seq<u8> {
    match f {
        NbtFileFormat::Nbt => enc_file(t, false),
        NbtFileFormat::Mca => enc_file(t, false),
        NbtFileFormat::Gzip => gzip_of(enc_file(t, false)),
        NbtFileFormat::Zlib => zlib_of(enc_file(t, false)),
        NbtFileFormat::Snbt => text_of(t),
        NbtFileFormat::LittleEndianNbt => enc_file(t, true),
        NbtFileFormat::LittleEndianHeaderNbt => enc_le_header_file(t),
    }
}

/// Why a document could not be saved in a format.
#[derive(Copy, Clone, Debug, PartialEq, Eq)]
pub enum EncodeError {
    /// The text form here has no floating-point values; the tree holds one.
    FloatInText,
    /// The region's chunks cannot be laid out as a region file.
    RegionLayout,
}

/// What saving a document in format `f` gives.
pub open spec fn encoded_as(f: NbtFileFormat, d: DocView, r: Result<Vec<u8>, EncodeError>) -> bool {
    &&& d matches DocView::Tree(t) ==> if f == NbtFileFormat::Snbt && !float_free(t) {
        r == Err::<Vec<u8>, EncodeError>(EncodeError::FloatInText)
    } else {
        r is Ok && r->Ok_0@ == tree_bytes(f, t)
    }
    &&& d matches DocView::Region(cs) ==> if region_fits(cs) {
        r is Ok && exists|b: Seq<u8>| lays_out(cs, b) && r->Ok_0@ == enveloped(f, b)
    } else {
        r == Err::<Vec<u8>, EncodeError>(EncodeError::RegionLayout)
    }
    &&& r is Ok && f == NbtFileFormat::Gzip ==> r->Ok_0@.len() >= 2 && r->Ok_0@[0] == 0x1f && r->Ok_0@[1] == 0x8b
    &&& r is Ok && f == NbtFileFormat::Zlib ==> r->Ok_0@.len() >= 2 && r->Ok_0@[0] == 0x78 && r->Ok_0@[1] == 0xda
}

/// Whether `b` is a region file holding exactly the chunks `cs` where they
/// say they are.
pub open spec fn lays_out(cs: Seq<RegionChunk>, b: Seq<u8>) -> bool {
    region_laid_out(cs, b)
}

/// The compression envelope of format `f` around `b`.
pub open spec fn enveloped(f: NbtFileFormat, b: Seq<u8>) -> Seq<u8> {
    match f {
        NbtFileFormat::Gzip => gzip_of(b),
        NbtFileFormat::Zlib => zlib_of(b),
        _ => b,
    }
}

impl NbtFileFormat {
    /// The bytes that saving `data` in this format writes. A region
    /// container is laid out as a region file, inside the envelope of a
    /// compressed format.
    pub fn encode(self, data: &NbtDocument) -> (r: Result<Vec<u8>, EncodeError>)
        ensures
            encoded_as(self, data.view(), r),
    {
        match data {
            NbtDocument::Tree(t) => match self {
                NbtFileFormat::Nbt | NbtFileFormat::Mca => Ok(encode_be(t)),
                NbtFileFormat::Gzip => Ok(gzip_compress(encode_be(t).as_slice())),
                NbtFileFormat::Zlib => Ok(zlib_compress(encode_be(t).as_slice())),
                NbtFileFormat::Snbt => match to_snbt(t) {
                    Some(text) => Ok(text),
                    None => Err(EncodeError::FloatInText),
                },
                NbtFileFormat::LittleEndianNbt => Ok(encode_le(t, false)),
                NbtFileFormat::LittleEndianHeaderNbt => Ok(encode_le(t, true)),
            },
            NbtDocument::Region(region) => match encode_region(region) {
                Some(b) => {
                    let ghost laid = b@;
                    let out = match self {
                        NbtFileFormat::Gzip => gzip_compress(b.as_slice()),
                        NbtFileFormat::Zlib => zlib_compress(b.as_slice()),
                        _ => b,
                    };
                    assert(lays_out(region.view(), laid) && out@ == enveloped(self, laid));
                    Ok(out)
                },
                None => Err(EncodeError::RegionLayout),
            },
        }
    }
}

/// The bytes of a chunk's document in compression `f`. An LZ4 chunk is the
/// raw block alone; its uncompressed length is kept by the region layer.
pub open spec fn chunk_bytes_of(f: ChunkFileFormat, t: Tag) -> Seq<u8> {
    match f {
        ChunkFileFormat::Nbt => enc_file(t, false),
        ChunkFileFormat::Gzip => gzip_of(enc_file(t, false)),
        ChunkFileFormat::Zlib => zlib_of(enc_file(t, false)),
        ChunkFileFormat::Lz4 => lz4_of(enc_file(t, false)),
    }
}

impl ChunkFileFormat {
    pub fn encode(self, data: &NbtTag) -> (r: Vec<u8>)
        ensures
            r@ == chunk_bytes_of(self, data.view()),
    {
        let raw = encode_be(data);
        match self {
            ChunkFileFormat::Nbt => raw,
            ChunkFileFormat::Gzip => gzip_compress(raw.as_slice()),
            ChunkFileFormat::Zlib => zlib_compress(raw.as_slice()),
            ChunkFileFormat::Lz4 => lz4_compress(raw.as_slice()),
        }
    }
}

} // verus!

verus! {

/// Reading bytes back in format `f`, with the decoder of that format alone.
pub open spec fn decoded(f: NbtFileFormat, s: Seq<u8>) -> Option<Tag> {
    match f {
        NbtFileFormat::Nbt => be_file(s),
        NbtFileFormat::Gzip => match gunzip_of(s) {
            Some(b) => be_file(b),
            None => None,
        },
        NbtFileFormat::Zlib => match unzlib_of(s) {
            Some(b) => be_file(b),
            None => None,
        },
        NbtFileFormat::LittleEndianNbt => match le_file(s) {
            Some((t, false)) => Some(t),
            _ => None,
        },
        NbtFileFormat::LittleEndianHeaderNbt => match le_file(s) {
            Some((t, true)) => Some(t),
            _ => None,
        },
        _ => None,
    }
}

/// Saving a well-formed tree in a binary format and reading it back with that
/// format's decoder gives the tree back. For gzip and zlib this rests on the
/// decompressor inverting the compressor on that stream, which is what the
/// decompression wrappers promise.
pub proof fn lemma_binary_round_trip(f: NbtFileFormat, t: Tag)
    requires
        wf_tag(t, MAX_DEPTH as nat),
        f != NbtFileFormat::Snbt,
        f != NbtFileFormat::Mca,
        f == NbtFileFormat::LittleEndianHeaderNbt ==> enc_file(t, true).len() <= u32::MAX,
        f == NbtFileFormat::Gzip ==> gunzip_of(gzip_of(enc_file(t, false))) == Some(enc_file(t, false)),
        f == NbtFileFormat::Zlib ==> unzlib_of(zlib_of(enc_file(t, false))) == Some(enc_file(t, false)),
    ensures
        decoded(f, tree_bytes(f, t)) == Some(t),
{
    match f {
        NbtFileFormat::LittleEndianHeaderNbt => lemma_le_header_round_trip(t),
        NbtFileFormat::LittleEndianNbt => lemma_file_round_trip(t, true),
        _ => lemma_file_round_trip(t, false),
    }
}

} // verus!
