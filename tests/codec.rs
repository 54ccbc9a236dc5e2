use nbt_container::binary::{decode_be, decode_le, encode_be, encode_le};
use nbt_container::document::{EncodeError, NbtDocument};
use nbt_container::format::{ChunkFileFormat, NbtFileFormat};
use nbt_container::nbt::NbtTag;
use nbt_container::path::{FilePath, FilePathError};
use nbt_container::region::{NbtChunk, NbtRegion};
use nbt_container::snbt::{parse_snbt, to_snbt};
use nbt_container::tab::{ParseRawError, Tab, TabError};

fn key(s: &str) -> Vec<u8> {
    s.as_bytes().to_vec()
}

fn sample() -> NbtTag {
    NbtTag::Compound(vec![
        (key("byte"), NbtTag::Byte(-3)),
        (key("short"), NbtTag::Short(1234)),
        (key("int"), NbtTag::Int(-100000)),
        (key("long"), NbtTag::Long(1 << 40)),
        (key("name"), NbtTag::String(key("Steve \"the\" \\miner"))),
        (key("bytes"), NbtTag::ByteArray(vec![1, 2, 255])),
        (key("ints"), NbtTag::IntArray(vec![7, -8, i32::MAX])),
        (key("longs"), NbtTag::LongArray(vec![i64::MIN, 0])),
        (key("list"), NbtTag::List(3, vec![NbtTag::Int(1), NbtTag::Int(2)])),
        (key("empty"), NbtTag::List(0, vec![])),
        (key("inner"), NbtTag::Compound(vec![(key("x"), NbtTag::Short(-1))])),
    ])
}

fn with_floats() -> NbtTag {
    NbtTag::Compound(vec![
        (key("f"), NbtTag::Float(1.5f32.to_bits())),
        (key("d"), NbtTag::Double((-2.25f64).to_bits())),
        (key("n"), NbtTag::List(10, vec![NbtTag::Compound(vec![])])),
    ])
}

fn tree(doc: NbtDocument) -> NbtTag {
    match doc {
        NbtDocument::Tree(t) => t,
        NbtDocument::Region(_) => panic!("expected a tag tree"),
    }
}

#[test]
fn big_endian_round_trip() {
    for doc in [sample(), with_floats()] {
        let bytes = encode_be(&doc);
        assert_eq!(decode_be(&bytes).unwrap(), doc);
    }
}

#[test]
fn big_endian_exact_bytes() {
    let doc = NbtTag::Compound(vec![(key("a"), NbtTag::Short(258))]);
    assert_eq!(encode_be(&doc), vec![10, 0, 0, 2, 0, 1, b'a', 1, 2, 0]);
    let le = encode_le(&doc, false);
    assert_eq!(le, vec![10, 0, 0, 2, 1, 0, b'a', 2, 1, 0]);
    let with_header = encode_le(&doc, true);
    assert_eq!(&with_header[..8], &[10, 0, 0, 0, 10, 0, 0, 0]);
    assert_eq!(&with_header[8..], &le[..]);
}

#[test]
fn little_endian_round_trip() {
    let doc = sample();
    assert_eq!(decode_le(&encode_le(&doc, false)).unwrap(), (sample(), false));
    assert_eq!(decode_le(&encode_le(&doc, true)).unwrap(), (sample(), true));
}

#[test]
fn truncated_input_is_an_error() {
    let bytes = encode_be(&sample());
    for cut in 0..bytes.len() {
        assert!(decode_be(&bytes[..cut]).is_err());
    }
    assert!(decode_be(&[]).is_err());
}

#[test]
fn hostile_lengths_are_errors() {
    assert!(decode_be(&[9, 0, 0, 1, 0x7f, 0xff, 0xff, 0xff]).is_err());
    assert!(decode_be(&[7, 0, 0, 0xff, 0xff, 0xff, 0xff]).is_err());
    assert!(decode_be(&[10, 0, 0, 10, 0xff, 0xff]).is_err());
    let mut deep = vec![9u8, 0, 0];
    for _ in 0..600 {
        deep.extend_from_slice(&[9, 0, 0, 0, 1]);
    }
    deep.extend_from_slice(&[0, 0, 0, 0, 0]);
    assert!(decode_be(&deep).is_err());
}

#[test]
fn every_format_round_trips_through_detection() {
    let formats = [
        NbtFileFormat::Nbt,
        NbtFileFormat::Gzip,
        NbtFileFormat::Zlib,
        NbtFileFormat::LittleEndianNbt,
        NbtFileFormat::LittleEndianHeaderNbt,
        NbtFileFormat::Snbt,
    ];
    for f in formats {
        let bytes = f.encode(&NbtDocument::Tree(sample())).unwrap();
        let (doc, found) = Tab::parse_raw(None, "level.dat", &bytes).unwrap();
        assert_eq!(found, f);
        assert_eq!(tree(doc), sample());
    }
}

#[test]
fn gzip_end_to_end() {
    let bytes = NbtFileFormat::Gzip.encode(&NbtDocument::Tree(sample())).unwrap();
    assert_eq!(&bytes[..3], &[0x1f, 0x8b, 0x08]);
    let (doc, f) = Tab::parse_raw(Some("dat"), "level.dat", &bytes).unwrap();
    assert_eq!(f, NbtFileFormat::Gzip);
    let again = f.encode(&doc).unwrap();
    assert_eq!(&again[..2], &[0x1f, 0x8b]);
    assert_eq!(tree(doc), sample());
}

#[test]
fn zlib_is_written_at_best_compression() {
    let bytes = NbtFileFormat::Zlib.encode(&NbtDocument::Tree(sample())).unwrap();
    assert_eq!(&bytes[..2], &[0x78, 0xda]);
}

#[test]
fn corrupt_gzip_is_a_decompression_error() {
    let mut bytes = encode_be(&sample());
    bytes.insert(0, 0x8b);
    bytes.insert(0, 0x1f);
    assert_eq!(
        Tab::parse_raw(None, "x.nbt", &bytes),
        Err(ParseRawError::Decompression(NbtFileFormat::Gzip))
    );
}

#[test]
fn corrupt_zlib_is_a_decompression_error() {
    let bytes = vec![0x78, 0x9c, 1, 2, 3, 4, 5, 6, 7];
    assert_eq!(
        Tab::parse_raw(None, "x.nbt", &bytes),
        Err(ParseRawError::Decompression(NbtFileFormat::Zlib))
    );
}

#[test]
fn gzip_of_a_scalar_root_is_malformed() {
    let scalar = encode_be(&NbtTag::Int(5));
    let mut gz = NbtFileFormat::Gzip.encode(&NbtDocument::Tree(NbtTag::Compound(vec![]))).unwrap();
    gz.truncate(0);
    let mut enc = flate2::read::GzEncoder::new(&scalar[..], flate2::Compression::best());
    std::io::Read::read_to_end(&mut enc, &mut gz).unwrap();
    assert_eq!(
        Tab::parse_raw(None, "x.dat", &gz),
        Err(ParseRawError::Malformed(NbtFileFormat::Gzip))
    );
}

#[test]
fn scalar_root_falls_through_to_unrecognized() {
    let bytes = vec![1u8, 0, 0, 5];
    assert_eq!(decode_be(&bytes).unwrap(), NbtTag::Byte(5));
    assert_eq!(
        Tab::parse_raw(None, "scalar.nbt", &bytes),
        Err(ParseRawError::Unrecognized("scalar.nbt".to_string()))
    );
}

#[test]
fn scalar_root_falls_through_to_text() {
    let bytes = b"[1,2,3]".to_vec();
    let (doc, f) = Tab::parse_raw(None, "list.snbt", &bytes).unwrap();
    assert_eq!(f, NbtFileFormat::Snbt);
    assert_eq!(tree(doc), NbtTag::List(3, vec![NbtTag::Int(1), NbtTag::Int(2), NbtTag::Int(3)]));
}

#[test]
fn region_extension_is_final() {
    let bytes = encode_be(&sample());
    assert_eq!(
        Tab::parse_raw(Some("mca"), "r.0.0.mca", &bytes),
        Err(ParseRawError::Malformed(NbtFileFormat::Mca))
    );
    assert_eq!(
        Tab::parse_raw(Some("mcr"), "r.0.0.mcr", &[]),
        Err(ParseRawError::Malformed(NbtFileFormat::Mca))
    );
    let (_, f) = Tab::parse_raw(Some("dat"), "r.0.0.dat", &bytes).unwrap();
    assert_eq!(f, NbtFileFormat::Nbt);
}

#[test]
fn text_end_to_end() {
    let (doc, f) = Tab::parse_raw(None, "a.snbt", b"{a:1b}").unwrap();
    assert_eq!(f, NbtFileFormat::Snbt);
    assert_eq!(tree(doc), NbtTag::Compound(vec![(key("a"), NbtTag::Byte(1))]));
}

#[test]
fn text_round_trip() {
    let text = to_snbt(&sample()).unwrap();
    assert_eq!(parse_snbt(&text).unwrap(), sample());
}

#[test]
fn text_form_exact() {
    let doc = NbtTag::Compound(vec![
        (key("a"), NbtTag::Byte(1)),
        (key("b"), NbtTag::List(2, vec![NbtTag::Short(-2), NbtTag::Short(3)])),
        (key("c"), NbtTag::LongArray(vec![5])),
        (key("d"), NbtTag::String(key("q\"x"))),
    ]);
    assert_eq!(
        String::from_utf8(to_snbt(&doc).unwrap()).unwrap(),
        "{\"a\":1b,\"b\":[-2s,3s],\"c\":[L;5L],\"d\":\"q\\\"x\"}"
    );
}

#[test]
fn text_form_refuses_floats() {
    assert_eq!(to_snbt(&with_floats()), None);
    assert_eq!(NbtFileFormat::Snbt.encode(&NbtDocument::Tree(with_floats())), Err(EncodeError::FloatInText));
}

#[test]
fn text_parser_accepts_spacing_and_words() {
    let t = parse_snbt(b" { id : \"stone\" , Count : 3b , ok : true , tags : [I; 1, 2] } ").unwrap();
    assert_eq!(
        t,
        NbtTag::Compound(vec![
            (key("id"), NbtTag::String(key("stone"))),
            (key("Count"), NbtTag::Byte(3)),
            (key("ok"), NbtTag::Byte(1)),
            (key("tags"), NbtTag::IntArray(vec![1, 2])),
        ])
    );
    assert_eq!(parse_snbt(b"{a:1.5f}"), None);
    assert_eq!(parse_snbt(b"{a:[1b,2s]}"), None);
    assert_eq!(parse_snbt(b"{a:1b"), None);
}

#[test]
fn unrecognized_names_the_file() {
    let bytes = vec![0xffu8, 0xfe, 0x00];
    assert_eq!(
        Tab::parse_raw(None, "junk.bin", &bytes),
        Err(ParseRawError::Unrecognized("junk.bin".to_string()))
    );
}

fn region() -> NbtRegion {
    let mut chunks = vec![];
    for (i, f) in [ChunkFileFormat::Zlib, ChunkFileFormat::Gzip, ChunkFileFormat::Nbt, ChunkFileFormat::Lz4]
        .into_iter()
        .enumerate()
    {
        chunks.push(NbtChunk {
            index: (i * 33) as u16,
            timestamp: 1_700_000_000 + i as u32,
            format: f,
            tag: NbtTag::Compound(vec![(key("xPos"), NbtTag::Int(i as i32)), (key("data"), NbtTag::ByteArray(vec![7; 5000]))]),
        });
    }
    NbtRegion { chunks }
}

#[test]
fn region_round_trip() {
    let bytes = NbtFileFormat::Mca.encode(&NbtDocument::Region(region())).unwrap();
    assert!(bytes.len() >= 8192);
    assert_eq!(bytes.len() % 4096, 0);
    let (doc, f) = Tab::parse_raw(Some("mca"), "r.0.0.mca", &bytes).unwrap();
    assert_eq!(f, NbtFileFormat::Mca);
    assert_eq!(doc, NbtDocument::Region(region()));
}

#[test]
fn region_with_unordered_slots_is_refused() {
    let mut r = region();
    r.chunks.swap(0, 1);
    assert_eq!(NbtFileFormat::Mca.encode(&NbtDocument::Region(r)), Err(EncodeError::RegionLayout));
}

#[test]
fn empty_region_file() {
    let bytes = vec![0u8; 8192];
    let (doc, f) = Tab::parse_raw(Some("mca"), "r.mca", &bytes).unwrap();
    assert_eq!(f, NbtFileFormat::Mca);
    assert_eq!(doc, NbtDocument::Region(NbtRegion { chunks: vec![] }));
}

#[test]
fn chunk_encodings() {
    let doc = sample();
    let raw = encode_be(&doc);
    assert_eq!(ChunkFileFormat::Nbt.encode(&doc), raw);
    let lz = ChunkFileFormat::Lz4.encode(&doc);
    assert_ne!(lz, raw);
    assert_eq!(lz4_flex::decompress(&lz, raw.len()).unwrap(), raw);
    let z = ChunkFileFormat::Zlib.encode(&doc);
    assert_eq!(zune_inflate::DeflateDecoder::new(&z).decode_zlib().unwrap(), raw);
    let g = ChunkFileFormat::Gzip.encode(&doc);
    assert_eq!(zune_inflate::DeflateDecoder::new(&g).decode_gzip().unwrap(), raw);
}

#[test]
fn file_path_names() {
    let p = FilePath::new("saves/world/level.dat".to_string()).unwrap();
    assert_eq!(p.name(), "level.dat");
    assert_eq!(p.path_str(), "saves/world/level.dat");
    assert_eq!(
        FilePath::new("/".to_string()).err(),
        Some(FilePathError::PathHasNoName("/".to_string()))
    );
}

#[test]
fn file_path_set_path_is_atomic() {
    let mut p = FilePath::new("a/b.nbt".to_string()).unwrap();
    assert_eq!(
        p.set_path("/".to_string()),
        Err(FilePathError::PathHasNoName("/".to_string()))
    );
    assert_eq!(p.name(), "b.nbt");
    assert_eq!(p.path_str(), "a/b.nbt");
    assert_eq!(p.set_path("c/d.snbt".to_string()), Ok("a/b.nbt".to_string()));
    assert_eq!(p.name(), "d.snbt");
    assert_eq!(p.path(), "c/d.snbt");
}

#[test]
fn tab_requires_a_container_root() {
    let path = FilePath::new("x.nbt".to_string()).unwrap();
    assert_eq!(
        Tab::new(NbtDocument::Tree(NbtTag::Int(1)), path, NbtFileFormat::Nbt).err(),
        Some(TabError::RootNotContainer)
    );
    let path = FilePath::new("x.nbt".to_string()).unwrap();
    assert!(Tab::new(NbtDocument::Tree(sample()), path, NbtFileFormat::Nbt).is_ok());
}

#[test]
fn empty_tabs() {
    let t = Tab::new_empty_tab(false).unwrap();
    assert_eq!(t.format, NbtFileFormat::Nbt);
    assert_eq!(t.path.name(), "new.nbt");
    assert_eq!(t.root, NbtDocument::Tree(NbtTag::Compound(vec![])));
    let r = Tab::new_empty_tab(true).unwrap();
    assert_eq!(r.format, NbtFileFormat::Mca);
    assert_eq!(r.root, NbtDocument::Region(NbtRegion { chunks: vec![] }));
}

#[test]
fn reload_replaces_document_and_format() {
    let mut t = Tab::new_empty_tab(false).unwrap();
    let bytes = NbtFileFormat::Zlib.encode(&NbtDocument::Tree(sample())).unwrap();
    let prev = t.reload(None, "new.nbt", &bytes).unwrap();
    assert_eq!(prev, NbtDocument::Tree(NbtTag::Compound(vec![])));
    assert_eq!(t.format, NbtFileFormat::Zlib);
    assert_eq!(t.root, NbtDocument::Tree(sample()));
    assert!(t.reload(None, "new.nbt", &[1, 2, 3]).is_err());
    assert_eq!(t.format, NbtFileFormat::Zlib);
    assert_eq!(t.save_bytes(), Ok(bytes));
}

#[test]
fn invalid_utf8_is_not_text() {
    let bytes = b"{a:\"\xff\"}".to_vec();
    assert_eq!(
        Tab::parse_raw(None, "bad.snbt", &bytes),
        Err(ParseRawError::Unrecognized("bad.snbt".to_string()))
    );
    let (doc, _) = Tab::parse_raw(None, "ok.snbt", "{a:\"é\"}".as_bytes()).unwrap();
    assert_eq!(tree(doc), NbtTag::Compound(vec![(key("a"), NbtTag::String("é".as_bytes().to_vec()))]));
}

#[test]
fn header_less_little_endian_is_not_taken_for_headed() {
    let doc = NbtTag::Compound(vec![(vec![0, 0, 10, 0], NbtTag::Byte(0))]);
    let bytes = encode_le(&doc, false);
    assert_eq!(bytes, vec![0x0a, 0, 0, 1, 4, 0, 0, 0, 0x0a, 0, 0, 0]);
    assert_eq!(decode_le(&bytes).unwrap(), (NbtTag::Compound(vec![(vec![0, 0, 10, 0], NbtTag::Byte(0))]), false));
    let (found, f) = Tab::parse_raw(None, "x.nbt", &bytes).unwrap();
    assert_eq!(f, NbtFileFormat::LittleEndianNbt);
    assert_eq!(tree(found), doc);
}

#[test]
fn headed_little_endian_detected_as_headed() {
    let doc = NbtTag::Compound(vec![(vec![0, 0, 10, 0], NbtTag::Byte(0))]);
    let bytes = encode_le(&doc, true);
    let (found, f) = Tab::parse_raw(None, "x.dat", &bytes).unwrap();
    assert_eq!(f, NbtFileFormat::LittleEndianHeaderNbt);
    assert_eq!(tree(found), doc);
}

#[test]
fn text_that_does_not_parse_is_unrecognized() {
    assert_eq!(
        Tab::parse_raw(None, "t.snbt", b"{a:1b,}"),
        Err(ParseRawError::Unrecognized("t.snbt".to_string()))
    );
    assert_eq!(
        Tab::parse_raw(None, "t.snbt", b"\"just a string\""),
        Err(ParseRawError::Unrecognized("t.snbt".to_string()))
    );
}

#[test]
fn filter_indices() {
    assert_eq!(NbtFileFormat::Gzip.filter_index(), 3);
    assert_eq!(NbtFileFormat::Zlib.filter_index(), 3);
    assert_eq!(NbtFileFormat::LittleEndianHeaderNbt.filter_index(), 5);
}
