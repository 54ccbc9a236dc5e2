use vstd::prelude::*;

verus! {

/// The largest output that the decompressors are asked to produce (1 GiB).
pub const MAX_INFLATED_LEN: usize = 0x4000_0000;

/// What flate2's gzip encoder at the best compression level makes of some bytes.
pub uninterp spec fn gzip_of(b: Seq<u8>) -> Seq<u8>;

/// What flate2's zlib encoder at the best compression level makes of some bytes.
pub uninterp spec fn zlib_of(b: Seq<u8>) -> Seq<u8>;

/// What lz4_flex's block compressor makes of some bytes.
pub uninterp spec fn lz4_of(b: Seq<u8>) -> Seq<u8>;

/// What zune-inflate's gzip decoder makes of some bytes, if it accepts them.
pub uninterp spec fn gunzip_of(b: Seq<u8>) -> Option<Seq<u8>>;

/// What zune-inflate's zlib decoder makes of some bytes, if it accepts them.
pub uninterp spec fn unzlib_of(b: Seq<u8>) -> Option<Seq<u8>>;

/// What lz4_flex's block decompressor makes of some bytes, given an upper
/// bound on the output length, if it accepts them.
pub uninterp spec fn unlz4_of(b: Seq<u8>, n: nat) -> Option<Seq<u8>>;

/// Relies on flate2::read::GzEncoder with Compression::best(). Reading an
/// in-memory slice cannot fail, and the gzip header that the encoder emits
/// first always begins with the bytes 1F 8B.
#[verifier::external_body]
pub(crate) fn gzip_compress(b: &[u8]) -> (r: Vec<u8>)
    ensures
        r@ == gzip_of(b@),
        r@.len() >= 2,
        r@[0] == 0x1f,
        r@[1] == 0x8b,
{
    let mut v = Vec::new();
    let _ = std::io::Read::read_to_end(
        &mut flate2::read::GzEncoder::new(b, flate2::Compression::best()),
        &mut v,
    );
    v
}

/// Relies on flate2::read::ZlibEncoder with Compression::best(). Through
/// miniz_oxide, the header for that level is the two bytes 78 DA, written
/// before any data is read.
#[verifier::external_body]
pub(crate) fn zlib_compress(b: &[u8]) -> (r: Vec<u8>)
    ensures
        r@ == zlib_of(b@),
        r@.len() >= 2,
        r@[0] == 0x78,
        r@[1] == 0xda,
{
    let mut v = Vec::new();
    let _ = std::io::Read::read_to_end(
        &mut flate2::read::ZlibEncoder::new(b, flate2::Compression::best()),
        &mut v,
    );
    v
}

/// Relies on lz4_flex::compress: a raw LZ4 block, with no frame and no length.
#[verifier::external_body]
pub(crate) fn lz4_compress(b: &[u8]) -> (r: Vec<u8>)
    ensures
        r@ == lz4_of(b@),
{
    lz4_flex::compress(b)
}

/// Relies on zune_inflate::DeflateDecoder::decode_gzip with its default
/// options (1 GiB output limit, checksum confirmed): it inverts a gzip
/// stream of fewer bytes than that.
#[verifier::external_body]
pub(crate) fn gzip_decompress(b: &[u8]) -> (r: Option<Vec<u8>>)
    ensures
        r is Some ==> gunzip_of(b@) == Some(r->0@),
        r is None ==> gunzip_of(b@) is None,
        forall|x: Seq<u8>| x.len() < MAX_INFLATED_LEN && #[trigger] gzip_of(x) == b@ ==> r is Some && r->0@ == x,
{
    zune_inflate::DeflateDecoder::new(b).decode_gzip().ok()
}

/// Relies on zune_inflate::DeflateDecoder::decode_zlib with its default
/// options (1 GiB output limit, checksum confirmed): it inverts a zlib
/// stream of fewer bytes than that.
#[verifier::external_body]
pub(crate) fn zlib_decompress(b: &[u8]) -> (r: Option<Vec<u8>>)
    ensures
        r is Some ==> unzlib_of(b@) == Some(r->0@),
        r is None ==> unzlib_of(b@) is None,
        forall|x: Seq<u8>| x.len() < MAX_INFLATED_LEN && #[trigger] zlib_of(x) == b@ ==> r is Some && r->0@ == x,
{
    zune_inflate::DeflateDecoder::new(b).decode_zlib().ok()
}

/// Relies on lz4_flex::decompress (safe decoding): an output longer than `n`
/// is refused as an error, and a block made by lz4_flex::compress from at most
/// `n` bytes comes back whole.
#[verifier::external_body]
pub(crate) fn lz4_decompress(b: &[u8], n: usize) -> (r: Option<Vec<u8>>)
    requires
        n <= MAX_INFLATED_LEN,
    ensures
        r is Some ==> unlz4_of(b@, n as nat) == Some(r->0@),
        r is None ==> unlz4_of(b@, n as nat) is None,
        forall|x: Seq<u8>| x.len() == n && #[trigger] lz4_of(x) == b@ ==> r is Some && r->0@ == x,
{
    lz4_flex::decompress(b, n).ok()
}

} // verus!
