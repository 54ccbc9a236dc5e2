use nbt_container::format::{ChunkFileFormat, NbtFileFormat, Vec2u};

const ALL: [NbtFileFormat; 7] = [
    NbtFileFormat::Nbt,
    NbtFileFormat::Gzip,
    NbtFileFormat::Zlib,
    NbtFileFormat::Snbt,
    NbtFileFormat::LittleEndianNbt,
    NbtFileFormat::LittleEndianHeaderNbt,
    NbtFileFormat::Mca,
];

#[test]
fn file_format_cycle_closes() {
    for f in ALL {
        assert_eq!(f.cycle().rev_cycle(), f);
        assert_eq!(f.rev_cycle().cycle(), f);
    }
}

#[test]
fn region_format_is_fixed_by_cycling() {
    assert_eq!(NbtFileFormat::Mca.cycle(), NbtFileFormat::Mca);
    assert_eq!(NbtFileFormat::Mca.rev_cycle(), NbtFileFormat::Mca);
}

#[test]
fn file_format_cycle_order() {
    let mut f = NbtFileFormat::Nbt;
    let mut seen = vec![];
    for _ in 0..6 {
        seen.push(f);
        f = f.cycle();
    }
    assert_eq!(f, NbtFileFormat::Nbt);
    assert_eq!(
        seen,
        vec![
            NbtFileFormat::Nbt,
            NbtFileFormat::Gzip,
            NbtFileFormat::Zlib,
            NbtFileFormat::LittleEndianNbt,
            NbtFileFormat::LittleEndianHeaderNbt,
            NbtFileFormat::Snbt,
        ]
    );
}

#[test]
fn file_format_labels() {
    assert_eq!(NbtFileFormat::Nbt.into_str(), "Uncompressed");
    assert_eq!(NbtFileFormat::Gzip.into_str(), "GZip");
    assert_eq!(NbtFileFormat::Zlib.into_str(), "ZLib");
    assert_eq!(NbtFileFormat::Snbt.into_str(), "SNBT");
    assert_eq!(NbtFileFormat::Mca.into_str(), "MCA");
    assert_eq!(NbtFileFormat::LittleEndianNbt.into_str(), "Little Endian NBT");
    assert_eq!(NbtFileFormat::LittleEndianHeaderNbt.into_str(), "Little Endian NBT (With Header)");
    assert_eq!(NbtFileFormat::Zlib.to_string(), "ZLib");
}

#[test]
fn file_format_icons_are_distinct() {
    for a in ALL {
        for b in ALL {
            if a != b {
                assert_ne!(a.uv(), b.uv());
            }
        }
    }
}

#[test]
fn chunk_format_cycle() {
    assert_eq!(ChunkFileFormat::Gzip.cycle(), ChunkFileFormat::Zlib);
    assert_eq!(ChunkFileFormat::Zlib.cycle(), ChunkFileFormat::Nbt);
    assert_eq!(ChunkFileFormat::Nbt.cycle(), ChunkFileFormat::Lz4);
    assert_eq!(ChunkFileFormat::Lz4.cycle(), ChunkFileFormat::Gzip);
    for f in [ChunkFileFormat::Gzip, ChunkFileFormat::Zlib, ChunkFileFormat::Nbt, ChunkFileFormat::Lz4] {
        assert_eq!(f.cycle().rev_cycle(), f);
        assert_eq!(f.rev_cycle().cycle(), f);
    }
}

#[test]
fn chunk_format_default_and_labels() {
    assert_eq!(ChunkFileFormat::default(), ChunkFileFormat::Zlib);
    assert_eq!(ChunkFileFormat::Lz4.into_str(), "LZ4");
    assert_eq!(ChunkFileFormat::Nbt.into_str(), "Uncompressed");
    assert_eq!(ChunkFileFormat::Lz4.uv(), Vec2u::new(240, 240));
}
