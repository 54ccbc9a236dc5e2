use vstd::prelude::*;
use crate::binary::{
    be_file, copy_range, decode_be, enc_file, lemma_file_round_trip, lemma_rd32_wr32, lemma_sub, rd32,
    read_u32, wf_tag, wr32, write_bytes, write_u32,
    StructuralError,
};
use crate::envelope::{
    gunzip_of, gzip_compress, gzip_decompress, gzip_of, lz4_compress, lz4_decompress, lz4_of,
    unlz4_of, unzlib_of, zlib_compress, zlib_decompress, zlib_of, MAX_INFLATED_LEN,
};
use crate::format::ChunkFileFormat;
use crate::nbt::{NbtTag, Tag, MAX_DEPTH};

verus! {

/// The number of chunk slots in a region, a 32 by 32 grid.
pub const REGION_SLOTS: usize = 1024;
/// The size of a sector, the unit in which chunk data is placed.
pub const SECTOR_LEN: usize = 4096;
/// The two header tables (locations, then timestamps), one sector each.
pub const REGION_HEADER_LEN: usize = 8192;

pub const CHUNK_GZIP: u8 = 1;
pub const CHUNK_ZLIB: u8 = 2;
pub const CHUNK_NBT: u8 = 3;
pub const CHUNK_LZ4: u8 = 4;

/// The mathematical value of a chunk of a region.
pub struct RegionChunk {
    pub index: u16,
    pub timestamp: u32,
    pub format: ChunkFileFormat,
    pub tag: Tag,
}

/// One chunk: its slot in the grid (`z * 32 + x`), its timestamp, how its
/// data is compressed, and its document.
#[derive(Debug, PartialEq, Eq)]
pub struct NbtChunk {
    pub index: u16,
    pub timestamp: u32,
    pub format: ChunkFileFormat,
    pub tag: NbtTag,
}

impl NbtChunk {
    pub open spec fn view(&self) -> RegionChunk {
        RegionChunk { index: self.index, timestamp: self.timestamp, format: self.format, tag: self.tag.view() }
    }
}

/// A region container: its present chunks, in slot order.
#[derive(Debug, PartialEq, Eq)]
pub struct NbtRegion {
    pub chunks: Vec<NbtChunk>,
}

impl NbtRegion {
    pub open spec fn view(&self) -> Seq<RegionChunk> {
        Seq::new(self.chunks@.len(), |i: int| self.chunks@[i].view())
    }
}

/// The uncompressed document bytes of a chunk whose data is `data` and
/// whose compression byte is `c`. An LZ4 chunk holds its uncompressed length
/// (big-endian, four bytes) in front of the raw block.
pub open spec fn chunk_payload(data: Seq<u8>, c: u8) -> Option<(ChunkFileFormat, Seq<u8>)> {
    if c == CHUNK_GZIP {
        match gunzip_of(data) {
            Some(p) => Some((ChunkFileFormat::Gzip, p)),
            None => None,
        }
    } else if c == CHUNK_ZLIB {
        match unzlib_of(data) {
            Some(p) => Some((ChunkFileFormat::Zlib, p)),
            None => None,
        }
    } else if c == CHUNK_NBT {
        Some((ChunkFileFormat::Nbt, data))
    } else if c == CHUNK_LZ4 {
        if data.len() < 4 || rd32(data, 0, false) > MAX_INFLATED_LEN {
            None
        } else {
            match unlz4_of(data.subrange(4, data.len() as int), rd32(data, 0, false) as nat) {
                Some(p) => Some((ChunkFileFormat::Lz4, p)),
                None => None,
            }
        }
    } else {
        None
    }
}

/// The sector at which slot `i`'s data starts, from the location table.
pub open spec fn slot_offset(s: Seq<u8>, i: int) -> u32 {
    ((s[4 * i] as u32) << 16u32) | ((s[4 * i + 1] as u32) << 8u32) | (s[4 * i + 2] as u32)
}

/// Slot `i` of a region: `Some(None)` where it is empty, `None` where its
/// entry does not lead to a well-formed chunk.
pub open spec fn region_slot(s: Seq<u8>, i: int) -> Option<Option<RegionChunk>> {
    if slot_offset(s, i) == 0 && s[4 * i + 3] == 0 {
        Some(None)
    } else {
        let start = (slot_offset(s, i) as int) * 4096;
        if start + 5 > s.len() {
            None
        } else {
            let l = rd32(s, start, false) as int;
            if l < 1 || start + 4 + l > s.len() {
                None
            } else {
                match chunk_payload(s.subrange(start + 5, start + 4 + l), s[start + 4]) {
                    Some((f, p)) => match be_file(p) {
                        Some(t) => Some(Some(RegionChunk {
                            index: i as u16,
                            timestamp: rd32(s, 4096 + 4 * i, false),
                            format: f,
                            tag: t,
                        })),
                        None => None,
                    },
                    None => None,
                }
            }
        }
    }
}

/// The chunks of the first `n` slots.
pub open spec fn region_prefix(s: Seq<u8>, n: nat) -> Option<Seq<RegionChunk>>
    decreases n,
{
    if n == 0 {
        Some(Seq::empty())
    } else {
        match region_prefix(s, (n - 1) as nat) {
            Some(cs) => match region_slot(s, n - 1) {
                Some(Some(c)) => Some(cs.push(c)),
                Some(None) => Some(cs),
                None => None,
            },
            None => None,
        }
    }
}

proof fn lemma_region_prefix_fails(s: Seq<u8>, n: nat, m: nat)
    requires
        n <= m,
        region_prefix(s, n) is None,
    ensures
        region_prefix(s, m) is None,
    decreases m - n,
{
    if n < m {
        lemma_region_prefix_fails(s, n, (m - 1) as nat);
    }
}

/// The chunks of a region file, if the bytes are one.
pub open spec fn region_file(s: Seq<u8>) -> Option<Seq<RegionChunk>> {
    if s.len() < REGION_HEADER_LEN {
        None
    } else {
        region_prefix(s, REGION_SLOTS as nat)
    }
}

fn chunk_bytes(data: &[u8], c: u8) -> (r: Option<(ChunkFileFormat, Vec<u8>)>)
    ensures
        match r {
            Some((f, p)) => chunk_payload(data@, c) == Some((f, p@)),
            None => chunk_payload(data@, c) is None,
        },
{
    if c == CHUNK_GZIP {
        match gzip_decompress(data) {
            Some(p) => Some((ChunkFileFormat::Gzip, p)),
            None => None,
        }
    } else if c == CHUNK_ZLIB {
        match zlib_decompress(data) {
            Some(p) => Some((ChunkFileFormat::Zlib, p)),
            None => None,
        }
    } else if c == CHUNK_NBT {
        Some((ChunkFileFormat::Nbt, copy_range(data, 0, data.len())))
    } else if c == CHUNK_LZ4 {
        if data.len() < 4 {
            return None;
        }
        let n = read_u32(data, 0, false);
        if n as u64 > MAX_INFLATED_LEN as u64 {
            return None;
        }
        let block = copy_range(data, 4, data.len());
        match lz4_decompress(block.as_slice(), n as usize) {
            Some(p) => Some((ChunkFileFormat::Lz4, p)),
            None => None,
        }
    } else {
        None
    }
}

fn read_slot(s: &[u8], i: usize) -> (r: Option<Option<NbtChunk>>)
    requires
        s@.len() >= REGION_HEADER_LEN,
        i < REGION_SLOTS,
    ensures
        match r {
            Some(Some(c)) => region_slot(s@, i as int) == Some(Some(c.view())),
            Some(None) => region_slot(s@, i as int) == Some(None::<RegionChunk>),
            None => region_slot(s@, i as int) is None,
        },
{
    let len = s.len();
    let loc: u32 = ((s[4 * i] as u32) << 16u32) | ((s[4 * i + 1] as u32) << 8u32) | (s[4 * i + 2] as u32);
    if loc == 0 && s[4 * i + 3] == 0 {
        return Some(None);
    }
    let start = (loc as u64) * 4096;
    if start + 5 > len as u64 {
        return None;
    }
    let start = start as usize;
    let l = read_u32(s, start, false);
    if l < 1 || (start as u64) + 4 + (l as u64) > len as u64 {
        return None;
    }
    let end = start + 4 + l as usize;
    let data = copy_range(s, start + 5, end);
    match chunk_bytes(data.as_slice(), s[start + 4]) {
        Some((f, p)) => match decode_be(p.as_slice()) {
            Ok(t) => Some(Some(NbtChunk {
                index: i as u16,
                timestamp: read_u32(s, 4096 + 4 * i, false),
                format: f,
                tag: t,
            })),
            Err(_) => None,
        },
        None => None,
    }
}

/// Decodes a region file.
pub fn decode_region(s: &[u8]) -> (r: Result<NbtRegion, StructuralError>)
    ensures
        r is Ok <==> region_file(s@) is Some,
        r is Ok ==> region_file(s@) == Some(r->Ok_0.view()),
{
    if s.len() < REGION_HEADER_LEN {
        return Err(StructuralError);
    }
    let mut chunks: Vec<NbtChunk> = Vec::new();
    let mut i: usize = 0;
    while i < REGION_SLOTS
        invariant
            i <= REGION_SLOTS,
            s@.len() >= REGION_HEADER_LEN,
            region_prefix(s@, i as nat) == Some(Seq::new(chunks@.len(), |k: int| chunks@[k].view())),
        decreases REGION_SLOTS - i,
    {
        let ghost before = Seq::new(chunks@.len(), |k: int| chunks@[k].view());
        match read_slot(s, i) {
            Some(Some(c)) => {
                chunks.push(c);
                assert(Seq::new(chunks@.len(), |k: int| chunks@[k].view()) =~= before.push(c.view()));
            },
            Some(None) => {},
            None => {
                proof {
                    lemma_region_prefix_fails(s@, (i + 1) as nat, REGION_SLOTS as nat);
                }
                return Err(StructuralError);
            },
        }
        i = i + 1;
    }
    Ok(NbtRegion { chunks })
}

} // verus!

verus! {

/// The compressed data of one chunk, as it is stored after the compression byte.
pub open spec fn chunk_data(f: ChunkFileFormat, raw: Seq<u8>) -> Seq<u8> {
    match f {
        ChunkFileFormat::Gzip => gzip_of(raw),
        ChunkFileFormat::Zlib => zlib_of(raw),
        ChunkFileFormat::Nbt => raw,
        ChunkFileFormat::Lz4 => wr32(raw.len() as u32, false) + lz4_of(raw),
    }
}

pub open spec fn chunk_code(f: ChunkFileFormat) -> u8 {
    match f {
        ChunkFileFormat::Gzip => CHUNK_GZIP,
        ChunkFileFormat::Zlib => CHUNK_ZLIB,
        ChunkFileFormat::Nbt => CHUNK_NBT,
        ChunkFileFormat::Lz4 => CHUNK_LZ4,
    }
}

/// The record of a chunk in the data area: its length (counting the
/// compression byte), the compression byte, and the data.
pub open spec fn chunk_record(c: RegionChunk) -> Seq<u8> {
    let data = chunk_data(c.format, enc_file(c.tag, false));
    wr32((data.len() + 1) as u32, false) + seq![chunk_code(c.format)] + data
}

/// The compressed data of a chunk's document.
pub fn compress_chunk(format: ChunkFileFormat, raw: &[u8]) -> (r: Vec<u8>)
    ensures
        r@ == chunk_data(format, raw@),
{
    match format {
        ChunkFileFormat::Gzip => gzip_compress(raw),
        ChunkFileFormat::Zlib => zlib_compress(raw),
        ChunkFileFormat::Nbt => copy_range(raw, 0, raw.len()),
        ChunkFileFormat::Lz4 => {
            let mut out: Vec<u8> = Vec::new();
            write_u32(&mut out, #[verifier::truncate] (raw.len() as u32), false);
            let block = lz4_compress(raw);
            write_bytes(&mut out, &block);
            out
        },
    }
}

fn chunk_code_of(f: ChunkFileFormat) -> (r: u8)
    ensures
        r == chunk_code(f),
{
    match f {
        ChunkFileFormat::Gzip => CHUNK_GZIP,
        ChunkFileFormat::Zlib => CHUNK_ZLIB,
        ChunkFileFormat::Nbt => CHUNK_NBT,
        ChunkFileFormat::Lz4 => CHUNK_LZ4,
    }
}

/// Whether the chunks sit in strictly increasing slots of the grid.
pub open spec fn slots_increasing(cs: Seq<RegionChunk>) -> bool {
    forall|a: int, b: int| 0 <= a < b < cs.len() ==> cs[a].index < cs[b].index
}

/// What a region file says of chunk `c`: its timestamp, and the record that
/// its location entry points at.
pub open spec fn holds_chunk(s: Seq<u8>, c: RegionChunk) -> bool {
    let start = (slot_offset(s, c.index as int) as int) * 4096;
    &&& rd32(s, 4096 + 4 * c.index, false) == c.timestamp
    &&& chunk_data(c.format, enc_file(c.tag, false)).len() < 0x7fff_ffff
    &&& 8192 <= start
    &&& start + chunk_record(c).len() <= s.len()
    &&& s.subrange(start, start + chunk_record(c).len()) == chunk_record(c)
}

/// Slot `j`'s location entry is all zero: the slot holds no chunk.
pub open spec fn slot_empty(s: Seq<u8>, j: int) -> bool {
    s[4 * j] == 0 && s[4 * j + 1] == 0 && s[4 * j + 2] == 0 && s[4 * j + 3] == 0
}

/// No chunk of `cs` sits in slot `j`.
pub open spec fn unused_slot(cs: Seq<RegionChunk>, j: int) -> bool {
    forall|a: int| 0 <= a < cs.len() ==> cs[a].index != j
}

/// Whether `b` is a region file laid out for exactly the chunks `cs`: each
/// chunk where its location entry points, every other slot empty.
pub open spec fn region_laid_out(cs: Seq<RegionChunk>, b: Seq<u8>) -> bool {
    &&& slots_increasing(cs)
    &&& b.len() >= REGION_HEADER_LEN
    &&& forall|k: int| 0 <= k < cs.len() ==> (#[trigger] cs[k]).index < REGION_SLOTS
    &&& forall|k: int| 0 <= k < cs.len() ==> holds_chunk(b, #[trigger] cs[k])
    &&& forall|j: int| 0 <= j < REGION_SLOTS && unused_slot(cs, j) ==> #[trigger] slot_empty(b, j)
}

/// `new` differs from `old` only past its end or in the two header entries of slot `i`.
pub open spec fn changed_only_slot(old: Seq<u8>, new: Seq<u8>, i: int) -> bool {
    &&& old.len() <= new.len()
    &&& forall|j: int|
        0 <= j < old.len() && !(4 * i <= j < 4 * i + 4) && !(4096 + 4 * i <= j < 4096 + 4 * i + 4)
            ==> new[j] == old[j]
}

proof fn lemma_holds_chunk_kept(old: Seq<u8>, new: Seq<u8>, i: int, c: RegionChunk)
    requires
        holds_chunk(old, c),
        0 <= c.index < i < 1024,
        old.len() >= 8192,
        changed_only_slot(old, new, i),
    ensures
        holds_chunk(new, c),
{
    let idx = c.index as int;
    assert(new[4 * idx] == old[4 * idx]);
    assert(new[4 * idx + 1] == old[4 * idx + 1]);
    assert(new[4 * idx + 2] == old[4 * idx + 2]);
    assert(old.subrange(4096 + 4 * idx, 4096 + 4 * idx + 4) =~= new.subrange(4096 + 4 * idx, 4096 + 4 * idx + 4));
    assert(rd32(new, 4096 + 4 * idx, false) == rd32(old, 4096 + 4 * idx, false)) by {
        assert(new[4096 + 4 * idx] == old[4096 + 4 * idx]);
        assert(new[4096 + 4 * idx + 1] == old[4096 + 4 * idx + 1]);
        assert(new[4096 + 4 * idx + 2] == old[4096 + 4 * idx + 2]);
        assert(new[4096 + 4 * idx + 3] == old[4096 + 4 * idx + 3]);
    }
    let start = (slot_offset(old, idx) as int) * 4096;
    let l = chunk_record(c).len() as int;
    assert(new.subrange(start, start + l) =~= old.subrange(start, start + l));
}

proof fn lemma_offset_bytes(o: u32)
    requires
        o < 0x100_0000,
    ensures
        ((((o >> 16u32) as u8) as u32) << 16u32) | ((((o >> 8u32) as u8) as u32) << 8u32) | ((o as u8) as u32) == o,
{
    assert(((((o >> 16u32) as u8) as u32) << 16u32) | ((((o >> 8u32) as u8) as u32) << 8u32) | ((o as u8) as u32) == o)
        by (bit_vector)
        requires
            o < 0x100_0000u32,
    ;
}

/// The sectors that a chunk's record takes up.
pub open spec fn record_sectors(c: RegionChunk) -> int {
    ((chunk_record(c).len() + 4095) / 4096) as int
}

/// The sector just past the records of the first `k` chunks, laid out one
/// after another from sector 2.
pub open spec fn layout_end(cs: Seq<RegionChunk>, k: int) -> int
    decreases k,
{
    if k <= 0 {
        2
    } else {
        layout_end(cs, k - 1) + record_sectors(cs[k - 1])
    }
}

/// Whether the chunks can be laid out as a region file: in increasing slots
/// of the grid, each record within 255 sectors and its compressed data under
/// 2^31 - 1 bytes, each starting sector within 24 bits, and the whole file
/// addressable.
pub open spec fn region_fits(cs: Seq<RegionChunk>) -> bool {
    &&& slots_increasing(cs)
    &&& forall|k: int| 0 <= k < cs.len() ==> #[trigger] chunk_fits(cs, k)
}

/// Chunk `k` fits where the chunks before it leave off.
pub open spec fn chunk_fits(cs: Seq<RegionChunk>, k: int) -> bool {
    &&& cs[k].index < REGION_SLOTS
    &&& chunk_data(cs[k].format, enc_file(cs[k].tag, false)).len() < 0x7fff_ffff
    &&& record_sectors(cs[k]) <= 255
    &&& layout_end(cs, k) < 0x100_0000
    &&& layout_end(cs, k + 1) * 4096 <= usize::MAX
}

/// Lays out a region file: the location and timestamp tables, then each
/// chunk's record from sector 2 on, each padded to whole sectors. `None`
/// where the chunks are not in increasing slots of the grid, or where a
/// record does not fit the 255 sectors or the 24-bit offset of a location.
#[verifier::rlimit(100)]
#[verifier::spinoff_prover]
pub fn encode_region(region: &NbtRegion) -> (r: Option<Vec<u8>>)
    ensures
        r is Some ==> region_laid_out(region.view(), r->0@),
        r is Some <==> region_fits(region.view()),
{
    let mut out: Vec<u8> = Vec::new();
    let mut i: usize = 0;
    while i < REGION_HEADER_LEN
        invariant
            i <= REGION_HEADER_LEN,
            out@.len() == i,
            forall|j: int| 0 <= j < i ==> out@[j] == 0,
        decreases REGION_HEADER_LEN - i,
    {
        out.push(0u8);
        i = i + 1;
    }
    let ghost cs = region.view();
    let mut k: usize = 0;
    assert forall|j: int| 0 <= j < REGION_SLOTS && unused_slot(cs.subrange(0, 0), j) implies #[trigger] slot_empty(out@, j) by {
        assert(out@[4 * j] == 0);
        assert(out@[4 * j + 1] == 0);
        assert(out@[4 * j + 2] == 0);
        assert(out@[4 * j + 3] == 0);
    }
    while k < region.chunks.len()
        invariant
            k <= region.chunks@.len(),
            cs == region.view(),
            cs.len() == region.chunks@.len(),
            out@.len() >= REGION_HEADER_LEN,
            out@.len() % 4096 == 0,
            out@.len() == layout_end(cs, k as int) * 4096,
            forall|a: int| 0 <= a < k ==> #[trigger] chunk_fits(cs, a),
            forall|a: int, b: int| 0 <= a < b < k ==> cs[a].index < cs[b].index,
            forall|a: int| 0 <= a < k ==> cs[a].index < REGION_SLOTS,
            forall|a: int| 0 <= a < k ==> holds_chunk(out@, #[trigger] cs[a]),
            forall|j: int| 0 <= j < REGION_SLOTS && unused_slot(cs.subrange(0, k as int), j) ==> #[trigger] slot_empty(out@, j),
        decreases region.chunks@.len() - k,
    {
        let chunk = &region.chunks[k];
        proof {
            assert(cs[k as int] == chunk.view());
        }
        if chunk.index as usize >= REGION_SLOTS || (k > 0 && chunk.index <= region.chunks[k - 1].index) {
            proof {
                if k > 0 {
                    assert(cs[k - 1] == region.chunks@[k - 1].view());
                }
                if region_fits(cs) {
                    assert(chunk_fits(cs, k as int));
                    if k > 0 {
                        assert(cs[k - 1].index < cs[k as int].index);
                    }
                }
            }
            return None;
        }
        let raw = crate::binary::encode_be(&chunk.tag);
        let data = compress_chunk(chunk.format, raw.as_slice());
        if data.len() >= 0x7fff_ffff {
            proof {
                if region_fits(cs) {
                    assert(chunk_fits(cs, k as int));
                }
            }
            return None;
        }
        let mut record: Vec<u8> = Vec::new();
        write_u32(&mut record, (data.len() + 1) as u32, false);
        record.push(chunk_code_of(chunk.format));
        write_bytes(&mut record, &data);
        proof {
            assert(record@ =~= chunk_record(cs[k as int]));
        }
        let sectors = (record.len() + 4095) / 4096;
        let offset = out.len() / 4096;
        proof {
            assert(offset == layout_end(cs, k as int)) by (nonlinear_arith)
                requires
                    offset == out@.len() / 4096,
                    out@.len() == layout_end(cs, k as int) * 4096,
            ;
        }
        if sectors > 255 || offset >= 0x100_0000 {
            proof {
                if region_fits(cs) {
                    assert(chunk_fits(cs, k as int));
                }
            }
            return None;
        }
        let ghost before = out@;
        let idx = chunk.index as usize;
        let o = offset as u32;
        out.set(4 * idx, #[verifier::truncate] ((o >> 16u32) as u8));
        out.set(4 * idx + 1, #[verifier::truncate] ((o >> 8u32) as u8));
        out.set(4 * idx + 2, #[verifier::truncate] (o as u8));
        out.set(4 * idx + 3, sectors as u8);
        let ts = chunk.timestamp;
        let hi = #[verifier::truncate] ((ts >> 16u32) as u16);
        let lo = #[verifier::truncate] (ts as u16);
        out.set(4096 + 4 * idx, #[verifier::truncate] ((hi >> 8u16) as u8));
        out.set(4096 + 4 * idx + 1, #[verifier::truncate] (hi as u8));
        out.set(4096 + 4 * idx + 2, #[verifier::truncate] ((lo >> 8u16) as u8));
        out.set(4096 + 4 * idx + 3, #[verifier::truncate] (lo as u8));
        let ghost headed = out@;
        let mid_len = out.len();
        write_bytes(&mut out, &record);
        let ghost filled = out@;
        let padded = sectors * 4096;
        if mid_len > usize::MAX - padded {
            proof {
                assert(layout_end(cs, k + 1) == layout_end(cs, k as int) + record_sectors(cs[k as int]));
                if region_fits(cs) {
                    assert(chunk_fits(cs, k as int));
                }
            }
            return None;
        }
        let target = mid_len + padded;
        proof {
            assert(sectors * 4096 >= record@.len()) by (nonlinear_arith)
                requires
                    sectors == (record@.len() + 4095) / 4096,
            ;
            assert(offset * 4096 == mid_len) by (nonlinear_arith)
                requires
                    offset == mid_len / 4096,
                    mid_len % 4096 == 0,
            ;
            assert(target % 4096 == 0) by (nonlinear_arith)
                requires
                    target == offset * 4096 + sectors * 4096,
            ;
        }
        while out.len() < target
            invariant
                out@.len() >= filled.len(),
                out@.len() <= target,
                filled.len() == mid_len + record@.len(),
                forall|j: int| 0 <= j < filled.len() ==> out@[j] == filled[j],
            decreases target - out@.len(),
        {
            out.push(0u8);
        }
        proof {
            assert forall|j: int| 0 <= j < mid_len implies out@[j] == headed[j] by {
                assert(out@[j] == filled[j]);
            }
            assert(out@[4 * idx] == headed[4 * idx]);
            assert(out@[4 * idx + 1] == headed[4 * idx + 1]);
            assert(out@[4 * idx + 2] == headed[4 * idx + 2]);
            assert(out@[4096 + 4 * idx] == headed[4096 + 4 * idx]);
            assert(out@[4096 + 4 * idx + 1] == headed[4096 + 4 * idx + 1]);
            assert(out@[4096 + 4 * idx + 2] == headed[4096 + 4 * idx + 2]);
            assert(out@[4096 + 4 * idx + 3] == headed[4096 + 4 * idx + 3]);
            let c = cs[k as int];
            assert(c == chunk.view());
            assert(record@ =~= chunk_record(c));
            lemma_offset_bytes(o);
            assert(slot_offset(out@, idx as int) == o);
            assert(out@.subrange(4096 + 4 * idx, 4096 + 4 * idx + 4) =~= wr32(ts, false));
            lemma_rd32_wr32(out@, 4096 + 4 * idx, ts, false);
            assert(filled == headed + record@);
            assert forall|j: int| 0 <= j < record@.len() implies out@[mid_len + j] == record@[j] by {
                assert(out@[mid_len + j] == filled[mid_len + j]);
            }
            assert(out@.subrange(mid_len as int, mid_len + record@.len()) =~= chunk_record(c));
            assert(holds_chunk(out@, c));
            assert forall|j: int|
                0 <= j < before.len() && !(4 * idx <= j < 4 * idx + 4) && !(4096 + 4 * idx <= j < 4096 + 4 * idx + 4)
                implies out@[j] == before[j] by {
                assert(out@[j] == headed[j]);
            }
            assert(changed_only_slot(before, out@, idx as int));
            assert(layout_end(cs, k + 1) == layout_end(cs, k as int) + record_sectors(cs[k as int]));
            assert(out@.len() == layout_end(cs, k + 1) * 4096);
            assert(chunk_fits(cs, k as int));
            assert(cs[k as int].index == chunk.index);
            assert forall|a: int| 0 <= a < k implies cs[a].index < chunk.index by {
                if a < k - 1 {
                    assert(cs[a].index < cs[k - 1].index);
                }
            }
            assert forall|a: int| 0 <= a < k + 1 implies holds_chunk(out@, #[trigger] cs[a]) by {
                if a < k {
                    lemma_holds_chunk_kept(before, out@, idx as int, cs[a]);
                }
            }
            assert forall|j: int| 0 <= j < REGION_SLOTS && unused_slot(cs.subrange(0, k + 1), j) implies #[trigger] slot_empty(out@, j) by {
                assert(cs.subrange(0, k + 1)[k as int] == cs[k as int]);
                assert forall|a: int| 0 <= a < k implies cs.subrange(0, k as int)[a].index != j by {
                    assert(cs.subrange(0, k + 1)[a] == cs[a]);
                }
                assert(slot_empty(before, j));
                assert(out@[4 * j] == before[4 * j]);
                assert(out@[4 * j + 1] == before[4 * j + 1]);
                assert(out@[4 * j + 2] == before[4 * j + 2]);
                assert(out@[4 * j + 3] == before[4 * j + 3]);
            }
        }
        k = k + 1;
    }
    proof {
        assert(cs.subrange(0, cs.len() as int) =~= cs);
    }
    Some(out)
}

} // verus!

verus! {

/// The decompressor gives back what the compressor made of a chunk's
/// document, as the decompression wrappers promise of every stream they
/// are handed.
pub open spec fn envelope_inverts(c: RegionChunk) -> bool {
    let raw = enc_file(c.tag, false);
    match c.format {
        ChunkFileFormat::Gzip => gunzip_of(gzip_of(raw)) == Some(raw),
        ChunkFileFormat::Zlib => unzlib_of(zlib_of(raw)) == Some(raw),
        ChunkFileFormat::Nbt => true,
        ChunkFileFormat::Lz4 => raw.len() <= MAX_INFLATED_LEN && unlz4_of(lz4_of(raw), raw.len()) == Some(raw),
    }
}

proof fn lemma_slot_of_chunk(b: Seq<u8>, c: RegionChunk)
    requires
        holds_chunk(b, c),
        c.index < REGION_SLOTS,
        b.len() >= REGION_HEADER_LEN,
        wf_tag(c.tag, MAX_DEPTH as nat),
        envelope_inverts(c),
    ensures
        region_slot(b, c.index as int) == Some(Some(c)),
{
    let i = c.index as int;
    let start = (slot_offset(b, i) as int) * 4096;
    let raw = enc_file(c.tag, false);
    let data = chunk_data(c.format, raw);
    let rec = chunk_record(c);
    assert(rec == wr32((data.len() + 1) as u32, false) + seq![chunk_code(c.format)] + data);
    lemma_sub(b, start, rec, 0, 4);
    assert(rec.subrange(0, 4) =~= wr32((data.len() + 1) as u32, false));
    lemma_rd32_wr32(b, start, (data.len() + 1) as u32, false);
    lemma_sub(b, start, rec, 4, 5);
    assert(b[start + 4] == rec[4]);
    lemma_sub(b, start, rec, 5, rec.len() as int);
    assert(rec.subrange(5, rec.len() as int) =~= data);
    lemma_file_round_trip(c.tag, false);
    if c.format == ChunkFileFormat::Lz4 {
        assert(data.subrange(0, 4) =~= wr32(raw.len() as u32, false));
        lemma_rd32_wr32(data, 0, raw.len() as u32, false);
        assert(data.subrange(4, data.len() as int) =~= lz4_of(raw));
    }
    assert(chunk_payload(data, chunk_code(c.format)) == Some((c.format, raw)));
}

proof fn lemma_region_prefix(cs: Seq<RegionChunk>, b: Seq<u8>, n: nat) -> (m: int)
    requires
        region_laid_out(cs, b),
        forall|k: int| 0 <= k < cs.len() ==> wf_tag((#[trigger] cs[k]).tag, MAX_DEPTH as nat) && envelope_inverts(cs[k]),
        n <= REGION_SLOTS,
    ensures
        0 <= m <= cs.len(),
        forall|k: int| 0 <= k < m ==> (#[trigger] cs[k]).index < n,
        forall|k: int| m <= k < cs.len() ==> (#[trigger] cs[k]).index >= n,
        region_prefix(b, n) == Some(cs.subrange(0, m)),
    decreases n,
{
    if n == 0 {
        assert(cs.subrange(0, 0) =~= Seq::<RegionChunk>::empty());
        0
    } else {
        let m0 = lemma_region_prefix(cs, b, (n - 1) as nat);
        let j = n - 1;
        if m0 < cs.len() && cs[m0].index == j {
            lemma_slot_of_chunk(b, cs[m0]);
            assert(cs.subrange(0, m0).push(cs[m0]) =~= cs.subrange(0, m0 + 1));
            assert forall|k: int| m0 + 1 <= k < cs.len() implies (#[trigger] cs[k]).index >= n by {
                assert(cs[m0].index < cs[k].index);
            }
            m0 + 1
        } else {
            assert forall|a: int| 0 <= a < cs.len() implies cs[a].index != j by {
                if a >= m0 && a > m0 {
                    assert(cs[m0].index < cs[a].index);
                }
            }
            assert(unused_slot(cs, j));
            assert(slot_empty(b, j));
            assert(slot_offset(b, j) == 0) by {
                let b0 = b[4 * j];
                let b1 = b[4 * j + 1];
                let b2 = b[4 * j + 2];
                assert(((b0 as u32) << 16u32) | ((b1 as u32) << 8u32) | (b2 as u32) == 0u32) by (bit_vector)
                    requires
                        b0 == 0u8,
                        b1 == 0u8,
                        b2 == 0u8,
                ;
            }
            m0
        }
    }
}

/// A region file laid out for some chunks reads back as exactly those
/// chunks, where each chunk's tree is well formed and its compression is
/// undone by the matching decompressor.
pub proof fn lemma_region_round_trip(cs: Seq<RegionChunk>, b: Seq<u8>)
    requires
        region_laid_out(cs, b),
        forall|k: int| 0 <= k < cs.len() ==> wf_tag((#[trigger] cs[k]).tag, MAX_DEPTH as nat) && envelope_inverts(cs[k]),
    ensures
        region_file(b) == Some(cs),
{
    let m = lemma_region_prefix(cs, b, REGION_SLOTS as nat);
    if m < cs.len() {
        assert(cs[m].index < REGION_SLOTS);
    }
    assert(cs.subrange(0, cs.len() as int) =~= cs);
}

} // verus!
