use vstd::prelude::*;
use crate::binary::{be_file, decode_be, decode_le, enc_file, le_file, wf_tag, wr32, LE_HEADER_VERSION};
use crate::document::{encoded_as, lemma_binary_round_trip, EncodeError};
use crate::document::{root_shape, DocView, NbtDocument};
use crate::envelope::{gunzip_of, gzip_decompress, gzip_of, unzlib_of, zlib_decompress, zlib_of};
use crate::format::NbtFileFormat;
use crate::nbt::{is_container, tag_id, NbtTag, Tag, MAX_DEPTH};
use crate::path::{FilePath, FilePathError};
use crate::region::{
    decode_region, envelope_inverts, lemma_region_round_trip, region_file, region_fits, NbtRegion, RegionChunk,
};
use crate::snbt::{parse_snbt, snbt_value};
use vstd::string::StringSliceAdditionalSpecFns;

verus! {

/// Whether some bytes are valid UTF-8, as std::str::from_utf8 decides it.
pub uninterp spec fn utf8_valid(b: Seq<u8>) -> bool;

/// Relies on std::str::from_utf8: `Ok` exactly where the bytes are valid UTF-8.
#[verifier::external_body]
fn is_utf8(b: &[u8]) -> (r: bool)
    ensures
        r == utf8_valid(b@),
{
    std::str::from_utf8(b).is_ok()
}

/// Why a buffer could not be opened.
#[derive(Debug, PartialEq, Eq)]
pub enum ParseRawError {
    /// The bytes chosen for this format (by extension or magic number) do
    /// not hold a document of it.
    Malformed(NbtFileFormat),
    /// A gzip or zlib magic number, but a stream that does not decompress.
    Decompression(NbtFileFormat),
    /// No format matched; carries the name of the file.
    Unrecognized(String),
}

/// The outcome of the signature and binary steps of detection.
pub enum Sniffed {
    Found(DocView, NbtFileFormat),
    Failed(ParseRawError),
    /// No binary reading applies; the text form is tried last.
    Text,
}

/// Whether the extension names a region file: `mca` or `mcr`.
pub open spec fn region_extension(ext: Option<&str>) -> bool {
    match ext {
        Some(e) => e.spec_bytes() =~= seq![109u8, 99u8, 97u8] || e.spec_bytes() =~= seq![109u8, 99u8, 114u8],
        None => false,
    }
}

pub open spec fn gzip_magic(s: Seq<u8>) -> bool {
    s.len() >= 2 && s[0] == 31 && s[1] == 139
}

pub open spec fn zlib_magic(s: Seq<u8>) -> bool {
    s.len() >= 2 && s[0] == 120 && (s[1] == 1 || s[1] == 156 || s[1] == 218)
}

/// The document inside a decompressed big-endian stream, for the format
/// whose envelope it came out of.
pub open spec fn inner_tree(p: Option<Seq<u8>>, f: NbtFileFormat) -> Sniffed {
    match p {
        None => Sniffed::Failed(ParseRawError::Decompression(f)),
        Some(b) => match be_file(b) {
            Some(t) => if is_container(t) {
                Sniffed::Found(DocView::Tree(t), f)
            } else {
                Sniffed::Failed(ParseRawError::Malformed(f))
            },
            None => Sniffed::Failed(ParseRawError::Malformed(f)),
        },
    }
}

pub open spec fn le_tree(s: Seq<u8>) -> Tag {
    let (t, _) = le_file(s)->0;
    t
}

pub open spec fn le_header(s: Seq<u8>) -> bool {
    let (_, h) = le_file(s)->0;
    h
}

/// Detection in its fixed order: region extension, gzip magic, zlib magic,
/// uncompressed big-endian, little-endian; the first three are final, the
/// last two are taken only with a compound or list root.
pub open spec fn sniff(region_ext: bool, s: Seq<u8>) -> Sniffed {
    if region_ext {
        match region_file(s) {
            Some(cs) => Sniffed::Found(DocView::Region(cs), NbtFileFormat::Mca),
            None => Sniffed::Failed(ParseRawError::Malformed(NbtFileFormat::Mca)),
        }
    } else if gzip_magic(s) {
        inner_tree(gunzip_of(s), NbtFileFormat::Gzip)
    } else if zlib_magic(s) {
        inner_tree(unzlib_of(s), NbtFileFormat::Zlib)
    } else if be_file(s) is Some && is_container(be_file(s)->0) {
        Sniffed::Found(DocView::Tree(be_file(s)->0), NbtFileFormat::Nbt)
    } else if le_file(s) is Some && is_container(le_tree(s)) {
        Sniffed::Found(
            DocView::Tree(le_tree(s)),
            if le_header(s) { NbtFileFormat::LittleEndianHeaderNbt } else { NbtFileFormat::LittleEndianNbt },
        )
    } else {
        Sniffed::Text
    }
}

/// The document of the last detection step: valid UTF-8 that reads as the
/// text form, with a compound or list root.
pub open spec fn text_document(s: Seq<u8>) -> Option<Tag> {
    if utf8_valid(s) && snbt_value(s) is Some && is_container(snbt_value(s)->0) {
        snbt_value(s)
    } else {
        None
    }
}

/// What a successful detection may return: the binary outcome where one
/// applies, else a text document with a compound or list root.
pub open spec fn detected_as(region_ext: bool, s: Seq<u8>, d: DocView, f: NbtFileFormat) -> bool {
    match sniff(region_ext, s) {
        Sniffed::Found(d2, f2) => d == d2 && f == f2,
        Sniffed::Failed(_) => false,
        Sniffed::Text => f == NbtFileFormat::Snbt && text_document(s) is Some && d == DocView::Tree(text_document(s)->0),
    }
}

/// What a failed detection returns.
pub open spec fn failed_as(region_ext: bool, s: Seq<u8>, name: Seq<char>, e: ParseRawError) -> bool {
    match sniff(region_ext, s) {
        Sniffed::Found(_, _) => false,
        Sniffed::Failed(e2) => e == e2,
        Sniffed::Text => e is Unrecognized && e->Unrecognized_0@ == name && text_document(s) is None,
    }
}

fn is_region_extension(ext: Option<&str>) -> (r: bool)
    ensures
        r == region_extension(ext),
{
    match ext {
        Some(e) => {
            let b = e.as_bytes();
            let r = b.len() == 3 && b[0] == 109u8 && b[1] == 99u8 && (b[2] == 97u8 || b[2] == 114u8);
            proof {
                if r {
                    if b[2] == 97u8 {
                        assert(e.spec_bytes() =~= seq![109u8, 99u8, 97u8]);
                    } else {
                        assert(e.spec_bytes() =~= seq![109u8, 99u8, 114u8]);
                    }
                }
            }
            r
        },
        None => false,
    }
}

fn tree_from(p: Option<Vec<u8>>, f: NbtFileFormat) -> (r: Result<(NbtDocument, NbtFileFormat), ParseRawError>)
    ensures
        match inner_tree(match p { Some(v) => Some(v@), None => None }, f) {
            Sniffed::Found(d, g) => r is Ok && r->Ok_0.0.view() == d && r->Ok_0.1 == g,
            Sniffed::Failed(e) => r is Err && r->Err_0 == e,
            Sniffed::Text => false,
        },
{
    match p {
        None => Err(ParseRawError::Decompression(f)),
        Some(b) => match decode_be(b.as_slice()) {
            Ok(t) => {
                if t.is_compound() || t.is_list() {
                    Ok((NbtDocument::Tree(t), f))
                } else {
                    Err(ParseRawError::Malformed(f))
                }
            },
            Err(_) => Err(ParseRawError::Malformed(f)),
        },
    }
}

/// The document that is being edited, where it is stored, and the format it
/// is saved in.
pub struct Tab {
    pub root: NbtDocument,
    pub path: FilePath,
    pub format: NbtFileFormat,
}

/// A document root that is neither a compound, a list nor a region.
#[derive(Debug, PartialEq, Eq)]
pub enum TabError {
    RootNotContainer,
}

impl Tab {
    pub fn new(nbt: NbtDocument, path: FilePath, format: NbtFileFormat) -> (r: Result<Tab, TabError>)
        ensures
            r is Ok <==> root_shape(nbt.view()),
            r is Ok ==> r->Ok_0.root.view() == nbt.view() && r->Ok_0.format == format
                && r->Ok_0.path == path,
    {
        if !nbt.is_root_shape() {
            return Err(TabError::RootNotContainer);
        }
        Ok(Tab { root: nbt, path, format })
    }

    /// A tab on an empty document named `new.nbt`: an empty region saved as
    /// a region file, or an empty compound saved as uncompressed binary.
    pub fn new_empty_tab(region: bool) -> (r: Result<Tab, FilePathError>)
        ensures
            r is Ok,
            r matches Ok(tab) ==> {
                &&& tab.path.path_view() == "new.nbt"@
                &&& region ==> tab.root.view() == DocView::Region(Seq::empty()) && tab.format == NbtFileFormat::Mca
                &&& !region ==> tab.root.view() == DocView::Tree(Tag::Compound(Seq::empty()))
                    && tab.format == NbtFileFormat::Nbt
            },
    {
        proof {
            reveal_strlit("new.nbt");
        }
        let name = "new.nbt".to_owned();
        assert(name@ =~= seq!['n', 'e', 'w', '.', 'n', 'b', 't']);
        assert(crate::path::plain_name(name@));
        let path = match FilePath::new(name) {
            Ok(p) => p,
            Err(e) => return Err(e),
        };
        let root = if region {
            let r = NbtRegion { chunks: Vec::new() };
            assert(r.view() =~= Seq::empty());
            NbtDocument::Region(r)
        } else {
            let entries: Vec<(Vec<u8>, NbtTag)> = Vec::new();
            assert(crate::nbt::view_entries(entries@) =~= Seq::empty());
            NbtDocument::Tree(NbtTag::Compound(entries))
        };
        let format = if region { NbtFileFormat::Mca } else { NbtFileFormat::Nbt };
        Ok(Tab { root, path, format })
    }

    /// Finds the format of a buffer and reads its document. `extension` and
    /// `file_name` come from the path the bytes were read from; only the
    /// region extensions decide anything.
    pub fn parse_raw(extension: Option<&str>, file_name: &str, buf: &[u8]) -> (r: Result<(NbtDocument, NbtFileFormat), ParseRawError>)
        ensures
            match r {
                Ok((d, f)) => detected_as(region_extension(extension), buf@, d.view(), f),
                Err(e) => failed_as(region_extension(extension), buf@, file_name@, e),
            },
    {
        if is_region_extension(extension) {
            return match decode_region(buf) {
                Ok(region) => Ok((NbtDocument::Region(region), NbtFileFormat::Mca)),
                Err(_) => Err(ParseRawError::Malformed(NbtFileFormat::Mca)),
            };
        }
        let two = buf.len() >= 2;
        if two && buf[0] == 31 && buf[1] == 139 {
            return tree_from(gzip_decompress(buf), NbtFileFormat::Gzip);
        }
        if two && buf[0] == 120 && (buf[1] == 1 || buf[1] == 156 || buf[1] == 218) {
            return tree_from(zlib_decompress(buf), NbtFileFormat::Zlib);
        }
        if let Ok(t) = decode_be(buf) {
            if t.is_compound() || t.is_list() {
                return Ok((NbtDocument::Tree(t), NbtFileFormat::Nbt));
            }
        }
        if let Ok((t, header)) = decode_le(buf) {
            if t.is_compound() || t.is_list() {
                let f = if header { NbtFileFormat::LittleEndianHeaderNbt } else { NbtFileFormat::LittleEndianNbt };
                return Ok((NbtDocument::Tree(t), f));
            }
        }
        if is_utf8(buf) {
            if let Some(t) = parse_snbt(buf) {
                if t.is_compound() || t.is_list() {
                    return Ok((NbtDocument::Tree(t), NbtFileFormat::Snbt));
                }
            }
        }
        Err(ParseRawError::Unrecognized(file_name.to_string()))
    }

    /// Re-reads the document from `bytes`. On success the document and its
    /// format are replaced together and the previous document is handed back,
    /// for the caller to dispose of away from the interactive thread; on
    /// failure nothing changes.
    pub fn reload(&mut self, extension: Option<&str>, file_name: &str, bytes: &[u8]) -> (r: Result<NbtDocument, ParseRawError>)
        ensures
            match r {
                Ok(prev) => {
                    &&& prev.view() == old(self).root.view()
                    &&& detected_as(region_extension(extension), bytes@, final(self).root.view(), final(self).format)
                    &&& final(self).path == old(self).path
                },
                Err(e) => {
                    &&& failed_as(region_extension(extension), bytes@, file_name@, e)
                    &&& *final(self) == *old(self)
                },
            },
    {
        match Tab::parse_raw(extension, file_name, bytes) {
            Ok((value, format)) => {
                let mut prev = value;
                std::mem::swap(&mut self.root, &mut prev);
                self.format = format;
                Ok(prev)
            },
            Err(e) => Err(e),
        }
    }

    /// The bytes that saving writes to the tab's path.
    pub fn save_bytes(&self) -> (r: Result<Vec<u8>, crate::document::EncodeError>)
        ensures
            crate::document::encoded_as(self.format, self.root.view(), r),
    {
        self.format.encode(&self.root)
    }
}

} // verus!

verus! {

/// A buffer that starts with the gzip magic number is never read as
/// uncompressed (or little-endian, or text): detection ends at the gzip
/// step, and a stream that does not decompress is a decompression error.
pub proof fn lemma_gzip_magic_is_final(s: Seq<u8>)
    requires
        gzip_magic(s),
    ensures
        sniff(false, s) matches Sniffed::Found(_, f) ==> f == NbtFileFormat::Gzip,
        !(sniff(false, s) is Text),
        gunzip_of(s) is None ==> sniff(false, s) == Sniffed::Failed(ParseRawError::Decompression(NbtFileFormat::Gzip)),
{
}

/// The same for the zlib magic numbers.
pub proof fn lemma_zlib_magic_is_final(s: Seq<u8>)
    requires
        zlib_magic(s),
    ensures
        sniff(false, s) matches Sniffed::Found(_, f) ==> f == NbtFileFormat::Zlib,
        !(sniff(false, s) is Text),
        unzlib_of(s) is None ==> sniff(false, s) == Sniffed::Failed(ParseRawError::Decompression(NbtFileFormat::Zlib)),
{
}

/// A big-endian reading whose root is neither a compound nor a list is
/// refused at that step: detection goes on to the little-endian reading,
/// and then to the text form.
pub proof fn lemma_scalar_root_falls_through(s: Seq<u8>, t: Tag)
    requires
        !gzip_magic(s),
        !zlib_magic(s),
        be_file(s) == Some(t),
        !is_container(t),
    ensures
        !(sniff(false, s) matches Sniffed::Found(_, NbtFileFormat::Nbt)),
        !(sniff(false, s) is Failed),
        le_file(s) is None ==> sniff(false, s) is Text,
{
}

/// With a region extension, bytes that are no region file are an error of
/// the region format, never read any other way.
pub proof fn lemma_region_extension_is_final(s: Seq<u8>)
    requires
        region_file(s) is None,
    ensures
        sniff(true, s) == Sniffed::Failed(ParseRawError::Malformed(NbtFileFormat::Mca)),
{
}

} // verus!

verus! {

/// Saving a well-formed compound or list in a binary format and detecting
/// the bytes gives back the tree and the format. For gzip and zlib this rests
/// on the decompressor undoing the compressor, as the decompression wrappers
/// promise; a little-endian save is taken as such where its bytes are no
/// big-endian compound or list.
pub proof fn lemma_detect_round_trip(f: NbtFileFormat, t: Tag, r: Result<Vec<u8>, EncodeError>)
    requires
        wf_tag(t, MAX_DEPTH as nat),
        is_container(t),
        f != NbtFileFormat::Snbt,
        f != NbtFileFormat::Mca,
        encoded_as(f, DocView::Tree(t), r),
        f == NbtFileFormat::LittleEndianHeaderNbt ==> enc_file(t, true).len() <= u32::MAX,
        f == NbtFileFormat::Gzip ==> gunzip_of(gzip_of(enc_file(t, false))) == Some(enc_file(t, false)),
        f == NbtFileFormat::Zlib ==> unzlib_of(zlib_of(enc_file(t, false))) == Some(enc_file(t, false)),
        f == NbtFileFormat::LittleEndianNbt || f == NbtFileFormat::LittleEndianHeaderNbt ==> !(be_file(r->Ok_0@) is Some
            && is_container(be_file(r->Ok_0@)->0)),
    ensures
        sniff(false, r->Ok_0@) == Sniffed::Found(DocView::Tree(t), f),
{
    let s = r->Ok_0@;
    lemma_binary_round_trip(f, t);
    if f == NbtFileFormat::LittleEndianHeaderNbt {
        assert(s.subrange(0, 4) =~= wr32(LE_HEADER_VERSION, true));
        assert((10u32 as u16) == 10u16 && ((10u32 >> 16u32) as u16) == 0u16) by (bit_vector);
        assert((10u16 as u8) == 10u8 && ((10u16 >> 8u16) as u8) == 0u8) by (bit_vector);
        assert(s[0] == s.subrange(0, 4)[0]);
        assert(s[0] == 10);
    } else if f == NbtFileFormat::Nbt || f == NbtFileFormat::LittleEndianNbt {
        assert(s[0] == tag_id(t));
    }
}

/// Saving a region whose chunks fit a region file and detecting the bytes
/// under a region extension gives back the chunks, where each chunk's tree is
/// well formed and its compression is undone by the matching decompressor.
pub proof fn lemma_region_detect_round_trip(cs: Seq<RegionChunk>, r: Result<Vec<u8>, EncodeError>)
    requires
        region_fits(cs),
        forall|k: int| 0 <= k < cs.len() ==> wf_tag((#[trigger] cs[k]).tag, MAX_DEPTH as nat) && envelope_inverts(cs[k]),
        encoded_as(NbtFileFormat::Mca, DocView::Region(cs), r),
    ensures
        sniff(true, r->Ok_0@) == Sniffed::Found(DocView::Region(cs), NbtFileFormat::Mca),
{
    let b = choose|b: Seq<u8>| crate::document::lays_out(cs, b) && r->Ok_0@ == crate::document::enveloped(NbtFileFormat::Mca, b);
    lemma_region_round_trip(cs, b);
}

} // verus!
