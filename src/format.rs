use vstd::prelude::*;

verus! {

/// A position on the icon atlas.
#[derive(Copy, Clone, Debug, PartialEq, Eq, Structural)]
pub struct Vec2u {
    pub x: usize,
    pub y: usize,
}

impl Vec2u {
    pub fn new(x: usize, y: usize) -> (r: Vec2u)
        ensures
            r.x == x,
            r.y == y,
    {
        Vec2u { x, y }
    }
}

pub const NBT_FILE_TYPE_UV_X: usize = 96;
pub const GZIP_FILE_TYPE_UV_X: usize = 112;
pub const ZLIB_FILE_TYPE_UV_X: usize = 128;
pub const SNBT_FILE_TYPE_UV_X: usize = 144;
pub const MCA_FILE_TYPE_UV_X: usize = 160;
pub const LITTLE_ENDIAN_NBT_FILE_TYPE_UV_X: usize = 176;
pub const LITTLE_ENDIAN_HEADER_NBT_FILE_TYPE_UV_X: usize = 192;
pub const FILE_TYPE_UV_Y: usize = 240;
pub const LZ4_FILE_TYPE_UV_X: usize = 240;

/// The layout of a whole file.
#[derive(Copy, Clone, Debug, PartialEq, Eq, Structural)]
pub enum NbtFileFormat {
    /// Big-endian binary, no compression.
    Nbt,
    /// Big-endian binary inside a gzip envelope.
    Gzip,
    /// Big-endian binary inside a zlib envelope.
    Zlib,
    /// The stringified text form.
    Snbt,
    /// Little-endian binary without the eight-byte header.
    LittleEndianNbt,
    /// Little-endian binary with the eight-byte header.
    LittleEndianHeaderNbt,
    /// A region container of independently compressed chunks.
    Mca,
}

/// Successor of `f` in the order in which the editor rotates save formats.
pub open spec fn file_format_next(f: NbtFileFormat) -> NbtFileFormat {
    match f {
        NbtFileFormat::Nbt => NbtFileFormat::Gzip,
        NbtFileFormat::Gzip => NbtFileFormat::Zlib,
        NbtFileFormat::Zlib => NbtFileFormat::LittleEndianNbt,
        NbtFileFormat::LittleEndianNbt => NbtFileFormat::LittleEndianHeaderNbt,
        NbtFileFormat::LittleEndianHeaderNbt => NbtFileFormat::Snbt,
        NbtFileFormat::Snbt => NbtFileFormat::Nbt,
        NbtFileFormat::Mca => NbtFileFormat::Mca,
    }
}

/// Predecessor of `f` in the same order.
pub open spec fn file_format_prev(f: NbtFileFormat) -> NbtFileFormat {
    match f {
        NbtFileFormat::Nbt => NbtFileFormat::Snbt,
        NbtFileFormat::Gzip => NbtFileFormat::Nbt,
        NbtFileFormat::Zlib => NbtFileFormat::Gzip,
        NbtFileFormat::LittleEndianNbt => NbtFileFormat::Zlib,
        NbtFileFormat::LittleEndianHeaderNbt => NbtFileFormat::LittleEndianNbt,
        NbtFileFormat::Snbt => NbtFileFormat::LittleEndianHeaderNbt,
        NbtFileFormat::Mca => NbtFileFormat::Mca,
    }
}

pub open spec fn file_format_uv(f: NbtFileFormat) -> Vec2u {
    let x = match f {
        NbtFileFormat::Nbt => NBT_FILE_TYPE_UV_X,
        NbtFileFormat::Gzip => GZIP_FILE_TYPE_UV_X,
        NbtFileFormat::Zlib => ZLIB_FILE_TYPE_UV_X,
        NbtFileFormat::Snbt => SNBT_FILE_TYPE_UV_X,
        NbtFileFormat::Mca => MCA_FILE_TYPE_UV_X,
        NbtFileFormat::LittleEndianNbt => LITTLE_ENDIAN_NBT_FILE_TYPE_UV_X,
        NbtFileFormat::LittleEndianHeaderNbt => LITTLE_ENDIAN_HEADER_NBT_FILE_TYPE_UV_X,
    };
    Vec2u { x, y: FILE_TYPE_UV_Y }
}

pub open spec fn file_format_label(f: NbtFileFormat) -> Seq<char> {
    match f {
        NbtFileFormat::Nbt => "Uncompressed"@,
        NbtFileFormat::Gzip => "GZip"@,
        NbtFileFormat::Zlib => "ZLib"@,
        NbtFileFormat::Snbt => "SNBT"@,
        NbtFileFormat::Mca => "MCA"@,
        NbtFileFormat::LittleEndianNbt => "Little Endian NBT"@,
        NbtFileFormat::LittleEndianHeaderNbt => "Little Endian NBT (With Header)"@,
    }
}

impl NbtFileFormat {
    pub fn cycle(self) -> (r: Self)
        ensures
            r == file_format_next(self),
    {
        match self {
            Self::Nbt => Self::Gzip,
            Self::Gzip => Self::Zlib,
            Self::Zlib => Self::LittleEndianNbt,
            Self::LittleEndianNbt => Self::LittleEndianHeaderNbt,
            Self::LittleEndianHeaderNbt => Self::Snbt,
            Self::Snbt => Self::Nbt,
            Self::Mca => Self::Mca,
        }
    }

    pub fn rev_cycle(self) -> (r: Self)
        ensures
            r == file_format_prev(self),
    {
        match self {
            Self::Nbt => Self::Snbt,
            Self::Gzip => Self::Nbt,
            Self::Zlib => Self::Gzip,
            Self::LittleEndianNbt => Self::Zlib,
            Self::LittleEndianHeaderNbt => Self::LittleEndianNbt,
            Self::Snbt => Self::LittleEndianHeaderNbt,
            Self::Mca => Self::Mca,
        }
    }

    /// The icon of this format on the atlas.
    pub fn uv(self) -> (r: Vec2u)
        ensures
            r == file_format_uv(self),
    {
        let x = match self {
            Self::Nbt => NBT_FILE_TYPE_UV_X,
            Self::Gzip => GZIP_FILE_TYPE_UV_X,
            Self::Zlib => ZLIB_FILE_TYPE_UV_X,
            Self::Snbt => SNBT_FILE_TYPE_UV_X,
            Self::Mca => MCA_FILE_TYPE_UV_X,
            Self::LittleEndianNbt => LITTLE_ENDIAN_NBT_FILE_TYPE_UV_X,
            Self::LittleEndianHeaderNbt => LITTLE_ENDIAN_HEADER_NBT_FILE_TYPE_UV_X,
        };
        Vec2u::new(x, FILE_TYPE_UV_Y)
    }

    /// The label shown for this format.
    pub fn into_str(self) -> (r: &'static str)
        ensures
            r@ == file_format_label(self),
    {
        proof {
            reveal_strlit("Uncompressed");
            reveal_strlit("GZip");
            reveal_strlit("ZLib");
            reveal_strlit("SNBT");
            reveal_strlit("MCA");
            reveal_strlit("Little Endian NBT");
            reveal_strlit("Little Endian NBT (With Header)");
        }
        match self {
            Self::Nbt => "Uncompressed",
            Self::Gzip => "GZip",
            Self::Zlib => "ZLib",
            Self::Snbt => "SNBT",
            Self::Mca => "MCA",
            Self::LittleEndianNbt => "Little Endian NBT",
            Self::LittleEndianHeaderNbt => "Little Endian NBT (With Header)",
        }
    }

    /// The save-dialog filter that this format starts on: uncompressed, text,
    /// region, compressed, little-endian, little-endian with header.
    pub fn filter_index(self) -> (r: usize)
        ensures
            r == match self {
                NbtFileFormat::Nbt => 0usize,
                NbtFileFormat::Snbt => 1,
                NbtFileFormat::Mca => 2,
                NbtFileFormat::Gzip => 3,
                NbtFileFormat::Zlib => 3,
                NbtFileFormat::LittleEndianNbt => 4,
                NbtFileFormat::LittleEndianHeaderNbt => 5,
            },
    {
        match self {
            Self::Nbt => 0,
            Self::Snbt => 1,
            Self::Mca => 2,
            Self::Gzip | Self::Zlib => 3,
            Self::LittleEndianNbt => 4,
            Self::LittleEndianHeaderNbt => 5,
        }
    }

    /// The label as an owned string.
    pub fn to_string(self) -> (r: String)
        ensures
            r@ == file_format_label(self),
    {
        self.into_str().to_string()
    }
}

/// Rotating the save format forward then back, or back then forward, returns
/// to where it started; the region container is fixed by both rotations.
pub proof fn lemma_file_format_cycle_closure(f: NbtFileFormat)
    ensures
        file_format_prev(file_format_next(f)) == f,
        file_format_next(file_format_prev(f)) == f,
        f == NbtFileFormat::Mca ==> file_format_next(f) == f && file_format_prev(f) == f,
        f != NbtFileFormat::Mca ==> file_format_next(f) != NbtFileFormat::Mca
            && file_format_prev(f) != NbtFileFormat::Mca,
{
}

/// The compression of one chunk inside a region container.
#[derive(Copy, Clone, Debug, PartialEq, Eq, Structural)]
pub enum ChunkFileFormat {
    Gzip,
    Zlib,
    Nbt,
    Lz4,
}

pub open spec fn chunk_format_next(f: ChunkFileFormat) -> ChunkFileFormat {
    match f {
        ChunkFileFormat::Gzip => ChunkFileFormat::Zlib,
        ChunkFileFormat::Zlib => ChunkFileFormat::Nbt,
        ChunkFileFormat::Nbt => ChunkFileFormat::Lz4,
        ChunkFileFormat::Lz4 => ChunkFileFormat::Gzip,
    }
}

pub open spec fn chunk_format_prev(f: ChunkFileFormat) -> ChunkFileFormat {
    match f {
        ChunkFileFormat::Gzip => ChunkFileFormat::Lz4,
        ChunkFileFormat::Zlib => ChunkFileFormat::Gzip,
        ChunkFileFormat::Nbt => ChunkFileFormat::Zlib,
        ChunkFileFormat::Lz4 => ChunkFileFormat::Nbt,
    }
}

pub open spec fn chunk_format_uv(f: ChunkFileFormat) -> Vec2u {
    match f {
        ChunkFileFormat::Nbt => Vec2u { x: NBT_FILE_TYPE_UV_X, y: FILE_TYPE_UV_Y },
        ChunkFileFormat::Gzip => Vec2u { x: GZIP_FILE_TYPE_UV_X, y: FILE_TYPE_UV_Y },
        ChunkFileFormat::Zlib => Vec2u { x: ZLIB_FILE_TYPE_UV_X, y: FILE_TYPE_UV_Y },
        ChunkFileFormat::Lz4 => Vec2u { x: LZ4_FILE_TYPE_UV_X, y: FILE_TYPE_UV_Y },
    }
}

pub open spec fn chunk_format_label(f: ChunkFileFormat) -> Seq<char> {
    match f {
        ChunkFileFormat::Nbt => "Uncompressed"@,
        ChunkFileFormat::Gzip => "GZip"@,
        ChunkFileFormat::Zlib => "ZLib"@,
        ChunkFileFormat::Lz4 => "LZ4"@,
    }
}

impl Default for ChunkFileFormat {
    fn default() -> (r: Self)
        ensures
            r == ChunkFileFormat::Zlib,
    {
        ChunkFileFormat::Zlib
    }
}

impl ChunkFileFormat {
    pub fn cycle(self) -> (r: Self)
        ensures
            r == chunk_format_next(self),
    {
        match self {
            Self::Gzip => Self::Zlib,
            Self::Zlib => Self::Nbt,
            Self::Nbt => Self::Lz4,
            Self::Lz4 => Self::Gzip,
        }
    }

    pub fn rev_cycle(self) -> (r: Self)
        ensures
            r == chunk_format_prev(self),
    {
        match self {
            Self::Gzip => Self::Lz4,
            Self::Zlib => Self::Gzip,
            Self::Nbt => Self::Zlib,
            Self::Lz4 => Self::Nbt,
        }
    }

    pub fn uv(self) -> (r: Vec2u)
        ensures
            r == chunk_format_uv(self),
    {
        match self {
            Self::Nbt => Vec2u::new(NBT_FILE_TYPE_UV_X, FILE_TYPE_UV_Y),
            Self::Gzip => Vec2u::new(GZIP_FILE_TYPE_UV_X, FILE_TYPE_UV_Y),
            Self::Zlib => Vec2u::new(ZLIB_FILE_TYPE_UV_X, FILE_TYPE_UV_Y),
            Self::Lz4 => Vec2u::new(LZ4_FILE_TYPE_UV_X, FILE_TYPE_UV_Y),
        }
    }

    pub fn into_str(self) -> (r: &'static str)
        ensures
            r@ == chunk_format_label(self),
    {
        proof {
            reveal_strlit("Uncompressed");
            reveal_strlit("GZip");
            reveal_strlit("ZLib");
            reveal_strlit("LZ4");
        }
        match self {
            Self::Nbt => "Uncompressed",
            Self::Gzip => "GZip",
            Self::Zlib => "ZLib",
            Self::Lz4 => "LZ4",
        }
    }
}

/// Rotating a chunk's compression forward then back, or back then forward,
/// returns to where it started.
pub proof fn lemma_chunk_format_cycle_closure(f: ChunkFileFormat)
    ensures
        chunk_format_prev(chunk_format_next(f)) == f,
        chunk_format_next(chunk_format_prev(f)) == f,
{
}

/// Layout values of an open tab: the width of the line-number margin and the
/// two scroll offsets.
#[derive(Copy, Clone, Debug, PartialEq, Eq, Structural)]
pub struct TabConstants {
    pub left_margin: usize,
    pub scroll: usize,
    pub horizontal_scroll: usize,
}

} // verus!
