use udf::dataset::{NavError, WalkError, WalkStep};
use udf::file_offset::{allocate_region, region_image};
use udf::format::{
    FileOffset, UdfHeader, COMPRESS_NONE, COMPRESS_SIMPLE_U32, DATASET_CHECK, TYPE_DIM_1D,
    TYPE_DIM_2D, TYPE_DIM_3D, TYPE_HINT_NONE, TYPE_PRIM_F32, TYPE_PRIM_U32, TYPE_PRIM_U8,
    type_prim_align,
};
use udf::path::PathEl;
use udf::simplu32::{compress_quantized, decompress_quantized};
use udf::{
    hash, DataRef, Dataset, Names, NamesRef, ParseError, PrintId, PrintTypeInfo, Shape, SimpleU32,
    TableRef,
};

fn round_trip(data: &[u32]) -> Vec<u32> {
    let mut stream = Vec::new();
    SimpleU32.compress(&mut stream, data);
    let mut storage = vec![0u32; data.len()];
    assert!(SimpleU32::decompress(&mut storage, &stream));
    storage
}

#[test]
fn simplu32_regressions() {
    let cases: [&[u32]; 3] = [&[0, 1], &[16209, 59, 3994, 59], &[45, 11]];
    for data in cases {
        let mut stream = Vec::new();
        SimpleU32.compress(&mut stream, data);
        println!("{:x?}", stream);
        let mut storage = vec![0u32; data.len()];
        SimpleU32::decompress(&mut storage, &stream);
        assert_eq!(&storage, data);
    }
}

#[test]
fn simplu32_repeat_runs() {
    let data = [0u32, 1, 1, 1, 1, 1, 1, 1, 1, 1, 1, 1, 1, 1, 1, 1, 1, 1];
    assert_eq!(round_trip(&data), data.to_vec());
}

#[test]
fn simplu32_values_enter_lookup() {
    let data = [16209u32, 59, 3994, 59];
    let mut stream = Vec::new();
    SimpleU32.compress(&mut stream, &data);
    // The last value is found in the lookup table: a one-byte INDEX opcode.
    assert_eq!(stream.last().unwrap() & 0xc0, 0x80);
    assert_eq!(round_trip(&data), data.to_vec());
}

#[test]
fn simplu32_exact_bytes() {
    // 5: DELTA1 of +5 (field 4); 5 again: pending repeat; 6: REPEAT(1) then
    // the short-repeat step makes lastv 6, so it starts a new repeat run.
    let mut stream = Vec::new();
    SimpleU32.compress(&mut stream, &[5, 5, 6]);
    assert_eq!(stream, vec![0x04, 0xe0, 0xe0]);
    let mut out = vec![0u32; 3];
    assert!(SimpleU32::decompress(&mut out, &stream));
    assert_eq!(out, vec![5, 5, 6]);
}

#[test]
fn simplu32_wide_values_and_deltas() {
    let data = [
        0u32, 100, 50, 9000, 600000, 100_000_000, 0xffff_ffff, 7, 3_000_000_000, 3_000_000_001,
        3_000_000_002, 3_000_000_003, 1, 2, 3, 4, 5, 6, 7, 8, 9, 10, 11, 12, 13, 14, 15, 16, 17, 18,
        19, 20,
    ];
    assert_eq!(round_trip(&data), data.to_vec());
    let many: Vec<u32> = (0..40u32).map(|i| i.wrapping_mul(0x9e37_79b9)).collect();
    assert_eq!(round_trip(&many), many);
}

#[test]
fn simplu32_empty_and_wrong_length() {
    assert_eq!(round_trip(&[]), Vec::<u32>::new());
    let mut stream = Vec::new();
    SimpleU32.compress(&mut stream, &[1, 2, 3]);
    let mut short = vec![0u32; 2];
    assert!(!SimpleU32::decompress(&mut short, &stream));
    let mut long = vec![0u32; 4];
    assert!(!SimpleU32::decompress(&mut long, &stream));
    // A VALUES header without its four bytes is cut short.
    let mut one = vec![0u32; 1];
    assert!(!SimpleU32::decompress(&mut one, &[0xf0, 1, 2]));
}

#[test]
fn simplu32_appends_to_buffer() {
    let mut stream = vec![9u8, 9];
    SimpleU32.compress(&mut stream, &[42]);
    assert_eq!(&stream[..2], &[9, 9]);
    let mut out = vec![0u32; 1];
    assert!(SimpleU32::decompress(&mut out, &stream[2..]));
    assert_eq!(out, vec![42]);
}

#[test]
fn simplef32_quantized_stream() {
    let unit: f32 = 0.001;
    let quantized = [1501u32, 1500, 1501];
    let mut stream = Vec::new();
    compress_quantized(&mut stream, unit.to_bits(), &quantized);
    assert_eq!(&stream[..4], &unit.to_le_bytes());
    let mut out = vec![0u32; 3];
    let bits = decompress_quantized(&mut out, &stream).unwrap();
    assert_eq!(out, quantized.to_vec());
    let values: Vec<f32> = out.iter().map(|&q| q as i32 as f32 * f32::from_bits(bits)).collect();
    assert!((values[0] - 1.501).abs() < 1e-6);
    assert!((values[1] - 1.500).abs() < 1e-6);
    assert!(decompress_quantized(&mut out, &stream[..3]).is_none());
}

#[test]
fn hash_matches_known_value() {
    assert_eq!(hash("Hello World"), 0x6E4A573D);
    assert_eq!(hash(""), 3581);
    assert_eq!(hash("a"), (3581u32.wrapping_mul(33)) ^ 0x61);
}

#[test]
fn names_lookup_after_finalize() {
    let list = ["c", "gn", "g", "v", "vn", "vt", "fv", "fvt", "fvn"];
    let mut names = Names::default();
    for s in list {
        names.add(s, hash(s));
    }
    assert_eq!(names.finalize(), Ok(()));
    assert_eq!(names.strings.len() % 8, 0);
    let r = names.as_ref();
    for w in r.entries.windows(2) {
        assert!(w[0].hash < w[1].hash);
    }
    for s in list {
        assert_eq!(r.lookup(hash(s)), Ok(s));
        assert_eq!(r.find(s), Some(hash(s)));
    }
    assert_eq!(r.lookup(0), Err(0));
    assert_eq!(r.lookup(12345), Err(12345));
    assert_eq!(r.find("missing"), None);
    let it = r.iter();
    assert_eq!(it.len(), list.len());
    assert!(it.iter().all(|(h, n)| (*n).map(hash) == Some(*h)));
    assert_eq!(r.names().len(), list.len());
    assert_eq!(r.file_size(), 8 * list.len() + names.strings.len());
}

#[test]
fn names_finalize_rejects_duplicates_and_zero() {
    let mut names = Names::default();
    names.add("x", 7);
    names.add("y", 7);
    assert_eq!(names.finalize(), Err(ParseError::InvalidFormat));
    assert_eq!(names.strings, b"xy".to_vec());
    let mut zero = Names::default();
    zero.add("z", 0);
    assert_eq!(zero.finalize(), Err(ParseError::InvalidFormat));
    let empty = NamesRef::new();
    assert_eq!(empty.lookup(5), Err(5));
}

#[test]
fn shape_encode_decode() {
    let shapes = [Shape::Scalar, Shape::D1(3), Shape::D2(4, 0xff_ffff), Shape::D3(2, 5, 255)];
    for s in shapes {
        let (dim, words) = s.encode();
        assert_eq!(Shape::from_type_info(dim, words), s);
    }
    assert_eq!(Shape::D3(2, 3, 4).encode(), (TYPE_DIM_3D, [2, 3 | (4 << 24)]));
    assert_eq!(Shape::D2(4, 5).len(), 20);
    assert_eq!(Shape::D3(2, 3, 4).len(), 24);
    assert_eq!(Shape::Scalar.len(), 1);
    assert_eq!(Shape::D2(4, 5).flatten(), Shape::D1(20));
    assert_eq!(Shape::from_shape(0, [3, 0]), Shape::D1(3));
    assert_eq!(Shape::from_shape(0, [0, 0]), Shape::Scalar);
    assert_eq!(Shape::from_shape(TYPE_DIM_2D, [0, 0]), Shape::D2(0, 0));
    assert_eq!(Shape::from_shape(TYPE_DIM_1D, [3, 1 << 24]), Shape::D3(3, 0, 1));
}

fn f32_bytes(values: &[f32]) -> Vec<u8> {
    values.iter().flat_map(|v| v.to_le_bytes()).collect()
}

#[test]
fn dataset_write_and_read() {
    let bytes = f32_bytes(&[1.0, 2.0, 3.0]);
    let mut ds = Dataset::new();
    ds.names.add("v", hash("v"));
    let table = TableRef {
        key_name: hash("v"),
        data: DataRef {
            bytes: &bytes,
            type_info: TYPE_HINT_NONE | TYPE_DIM_1D | TYPE_PRIM_F32,
            compress_info: COMPRESS_NONE,
            shape: Shape::D1(3),
        },
        index_name: 0,
        related_name: 0,
    };
    assert!(ds.add_table(table));
    assert!(!ds.add_table(table));
    assert_eq!(ds.storage.len(), 16);
    assert_eq!(ds.finalize(), Ok(()));
    assert_eq!(ds.header.check, DATASET_CHECK);
    let size = 24 + 48 * ds.descs.len() + 8 * ds.names.entries.len() + ds.names.strings.len();
    assert_eq!(ds.header.size as usize, size);
    assert_eq!(ds.header.size % 8, 0);
    assert_eq!(ds.header.size, 24 + 48 + 8 + 8);

    let file = ds.as_ref().to_bytes();
    assert_eq!(file.len(), ds.as_ref().file_size());
    let back = Dataset::parse(&file).unwrap();
    assert_eq!(back.descs.len(), 1);
    assert_eq!(back.storage, ds.storage);
    assert_eq!(back.names.strings, ds.names.strings);
    let view = back.as_ref();
    let desc = view.find_table(hash("v")).unwrap();
    assert_eq!(desc.mem_start, 0);
    assert_eq!(desc.mem_end, 2);
    assert_eq!(desc.data_size, 12);
    let data = view.get_data_ref(desc).unwrap();
    assert_eq!(data.bytes, &bytes[..]);
    assert_eq!(data.shape, Shape::D1(3));
    assert_eq!(data.len(), 3);
    assert!(!data.is_compressed());
    assert_eq!(view.get_name(hash("v")).0, Ok("v"));
    assert!(view.find_table(hash("w")).is_none());
    let owned = view.to_owned();
    assert_eq!(owned.len(), 1);
}

#[test]
fn dataset_parse_errors() {
    assert_eq!(Dataset::parse(&[0u8; 10]).err(), Some(ParseError::OutOfBounds));
    assert_eq!(Dataset::parse(&[0u8; 24]).err(), Some(ParseError::InvalidFormat));
    let mut ds = Dataset::new();
    ds.finalize().unwrap();
    let mut file = ds.as_ref().to_bytes();
    assert!(Dataset::parse(&file).is_ok());
    // Size not a multiple of 8.
    file[12] = 25;
    assert_eq!(Dataset::parse(&file).err(), Some(ParseError::InvalidFormat));
    // Size past the end.
    file[12] = 32;
    assert_eq!(Dataset::parse(&file).err(), Some(ParseError::OutOfBounds));
    // Sections larger than the size.
    file[12] = 24;
    file[14] = 1;
    assert_eq!(Dataset::parse(&file).err(), Some(ParseError::OutOfBounds));
}

#[test]
fn dataset_finalize_overflow() {
    let long = "x".repeat(65530);
    let mut ds = Dataset::new();
    ds.names.add(&long, 1);
    assert_eq!(ds.finalize(), Err(ParseError::Overflow));
}

#[test]
fn data_decompress_simple_u32() {
    let values = [3u32, 3, 4, 100_000, 7];
    let mut stream = Vec::new();
    SimpleU32.compress(&mut stream, &values);
    let data = DataRef {
        bytes: &stream,
        type_info: TYPE_DIM_1D | TYPE_PRIM_U32,
        compress_info: COMPRESS_SIMPLE_U32,
        shape: Shape::D1(5),
    };
    assert!(data.is_compressed());
    let mut scratch = Vec::new();
    let plain = data.decompress(&mut scratch);
    assert!(!plain.is_compressed());
    let expect: Vec<u8> = values.iter().flat_map(|v| v.to_le_bytes()).collect();
    assert_eq!(plain.bytes, &expect[..]);
    let wrong = DataRef { shape: Shape::D1(4), ..data };
    let mut scratch2 = Vec::new();
    assert!(wrong.decompress(&mut scratch2).is_compressed());
}

#[test]
fn aligned_allocation() {
    assert_eq!(allocate_region(64, 100), FileOffset { offset: 64, size: 112 });
    assert_eq!(allocate_region(176, 32), FileOffset { offset: 176, size: 32 });
    assert_eq!(allocate_region(65, 1), FileOffset { offset: 80, size: 16 });
    let f = allocate_region(0, 0);
    assert!(f.is_aligned() && !f.is_null());
    assert!(FileOffset { offset: 0, size: 0 }.is_null());
    assert!(!FileOffset { offset: 8, size: 16 }.is_aligned());
}

#[test]
fn udf_header_bytes() {
    let mut h = UdfHeader::new(*b"TST\0");
    h.root = FileOffset { offset: 64, size: 112 };
    let bytes = h.to_bytes();
    assert_eq!(bytes.len(), 64);
    assert_eq!(&bytes[..4], b"UDF0");
    let back = UdfHeader::parse(&bytes).unwrap();
    assert_eq!(back.root, h.root);
    assert_eq!(back.id, *b"TST\0");
    let mut bad = bytes.clone();
    bad[0] = b'X';
    assert_eq!(UdfHeader::parse(&bad).err(), Some(ParseError::InvalidFormat));
    assert_eq!(UdfHeader::parse(&bytes[..10]).err(), Some(ParseError::OutOfBounds));
}

#[test]
fn path_parse_elements() {
    let mut state = "a.b[3].c";
    let first = PathEl::parse(&mut state).unwrap();
    assert!(matches!(first, PathEl::Name("a")));
    assert_eq!(state, "b[3].c");
    let second = PathEl::parse(&mut state).unwrap();
    assert!(matches!(second, PathEl::Dir { name: "b", index: 3 }));
    assert_eq!(second.name(), "b");
    let third = PathEl::parse(&mut state).unwrap();
    assert!(matches!(third, PathEl::Name("c")));
    assert_eq!(state, "");
    assert_eq!(PathEl::parse(&mut state).err(), Some(ParseError::InvalidFormat));
}

#[test]
fn path_parse_errors() {
    let mut s = "a[1";
    assert_eq!(PathEl::parse(&mut s).err(), Some(ParseError::InvalidFormat));
    let mut s = "a[1][2]";
    assert_eq!(PathEl::parse(&mut s).err(), Some(ParseError::InvalidFormat));
    assert_eq!(s, "a[1][2]");
    let mut s = "a[x].b";
    assert_eq!(PathEl::parse(&mut s).err(), Some(ParseError::ParseIntError));
    assert_eq!(s, "b");
    let mut s = "a[4294967296]";
    assert_eq!(PathEl::parse(&mut s).err(), Some(ParseError::ParseIntError));
    let mut s = "a[+7]";
    assert!(matches!(PathEl::parse(&mut s), Ok(PathEl::Dir { name: "a", index: 7 })));
}

#[test]
fn type_info_names() {
    let t = TYPE_HINT_NONE | TYPE_DIM_2D | TYPE_PRIM_U8;
    assert_eq!(PrintTypeInfo::prim(t), Some("u8"));
    assert_eq!(PrintTypeInfo::dim(t), Some("2d"));
    assert_eq!(PrintTypeInfo::hint(t), Some("none"));
    assert_eq!(PrintTypeInfo::prim(1), None);
    assert_eq!(PrintTypeInfo::hint(0x3f00), None);
    assert_eq!(type_prim_align(TYPE_PRIM_F32), 4);
    assert_eq!(type_prim_align(TYPE_PRIM_U8), 1);
    assert_eq!(PrintId::parse("abc").unwrap().0, *b"abc\0");
    assert_eq!(PrintId::parse("abcde").err(), Some(ParseError::InvalidFormat));
}

#[test]
fn shape_text() {
    assert_eq!(Shape::parse("scalar"), Ok(Shape::Scalar));
    assert_eq!(Shape::parse("7"), Ok(Shape::D1(7)));
    assert_eq!(Shape::parse("3x4"), Ok(Shape::D2(3, 4)));
    assert_eq!(Shape::parse("3x4x5"), Ok(Shape::D3(3, 4, 5)));
    assert_eq!(Shape::parse("3x16777216"), Err(ParseError::Overflow));
    assert_eq!(Shape::parse("3x4x256"), Err(ParseError::Overflow));
    assert_eq!(Shape::parse("1x2x3x4"), Err(ParseError::InvalidFormat));
    assert_eq!(Shape::parse("ax2"), Err(ParseError::ParseIntError));
    assert_eq!(Shape::parse(""), Err(ParseError::ParseIntError));
}

#[test]
fn file_offset_text() {
    assert_eq!(FileOffset::parse("0x40:0x70"), Ok(FileOffset { offset: 64, size: 112 }));
    assert_eq!(FileOffset::parse("64:112"), Ok(FileOffset { offset: 64, size: 112 }));
    assert_eq!(FileOffset::parse("0xFF:16"), Ok(FileOffset { offset: 255, size: 16 }));
    assert_eq!(FileOffset::parse("64"), Err(ParseError::InvalidFormat));
    assert_eq!(FileOffset::parse("1:2:3"), Err(ParseError::InvalidFormat));
    assert_eq!(FileOffset::parse("x:2"), Err(ParseError::ParseIntError));
    assert_eq!(FileOffset::parse("18446744073709551616:0"), Err(ParseError::ParseIntError));
    assert_eq!(
        FileOffset::parse("18446744073709551615:0"),
        Ok(FileOffset { offset: u64::MAX, size: 0 })
    );
}

#[test]
fn string_array_rows() {
    let mut data = Vec::new();
    let table = udf::build_string_array_utf8(&["ab", "", "xyz"], &mut data);
    assert_eq!(table.shape, Shape::D2(3, 3));
    assert_eq!(table.bytes, b"ab\0\0\0\0xyz");
    assert_eq!(table.type_info, TYPE_PRIM_U8 | TYPE_DIM_2D | 0x100);
    assert_eq!(Shape::from_type_info(table.type_info, [3, 3]), Shape::D2(3, 3));
}

#[test]
fn type_info_text() {
    assert_eq!(PrintTypeInfo::parse("u8:1d"), Ok(PrintTypeInfo(TYPE_PRIM_U8 | TYPE_DIM_1D)));
    assert_eq!(PrintTypeInfo::parse("f32:2d:coord"), Ok(PrintTypeInfo(TYPE_PRIM_F32 | TYPE_DIM_2D | 0x600)));
    assert_eq!(PrintTypeInfo::parse("?:scalar:json"), Ok(PrintTypeInfo(0x200)));
    assert_eq!(PrintTypeInfo::parse("u8"), Err(ParseError::InvalidFormat));
    assert_eq!(PrintTypeInfo::parse("u8:1d:none:x"), Err(ParseError::InvalidFormat));
    assert_eq!(PrintTypeInfo::parse("u9:1d"), Err(ParseError::InvalidFormat));
    assert_eq!(PrintTypeInfo::parse("u8:4d"), Err(ParseError::InvalidFormat));
    assert_eq!(PrintTypeInfo::parse("u8:1d:blue"), Err(ParseError::InvalidFormat));
}

#[test]
fn file_image_round_trip() {
    // A file image: header, then one aligned region holding the dataset.
    let values = f32_bytes(&[1.0, 2.0, 3.0]);
    let mut ds = Dataset::new();
    ds.names.add("v", hash("v"));
    assert!(ds.add_table(TableRef {
        key_name: hash("v"),
        data: DataRef {
            bytes: &values,
            type_info: TYPE_HINT_NONE | TYPE_DIM_1D | TYPE_PRIM_F32,
            compress_info: COMPRESS_NONE,
            shape: Shape::D1(3),
        },
        index_name: 0,
        related_name: 0,
    }));
    ds.finalize().unwrap();
    let region = ds.as_ref().to_bytes();

    let mut header = UdfHeader::new(*b"TST\0");
    let mut file = header.to_bytes();
    let fo = allocate_region(file.len() as u64, region.len() as u64);
    assert_eq!(fo.offset, 64);
    assert!(fo.is_aligned() && fo.size >= region.len() as u64);
    file.extend_from_slice(&region);
    file.resize((fo.offset + fo.size) as usize, 0);
    header.root = fo;
    file[..64].copy_from_slice(&header.to_bytes());

    let read = UdfHeader::parse(&file).unwrap();
    assert_eq!(read.id, *b"TST\0");
    let root = read.root;
    let back = Dataset::parse(&file[root.offset as usize..(root.offset + root.size) as usize]).unwrap();
    let view = back.as_ref();
    let desc = view.find_table(hash("v")).unwrap();
    let data = view.get_data_ref(desc).unwrap();
    let floats: Vec<f32> = data
        .bytes
        .chunks(4)
        .map(|c| f32::from_le_bytes([c[0], c[1], c[2], c[3]]))
        .collect();
    assert_eq!(floats, vec![1.0, 2.0, 3.0]);
}

#[test]
fn from_str_forms() {
    assert_eq!("2x3".parse::<Shape>(), Ok(Shape::D2(2, 3)));
    assert_eq!("0x10:0x20".parse::<FileOffset>(), Ok(FileOffset { offset: 16, size: 32 }));
    assert_eq!("u32:1d:index".parse::<PrintTypeInfo>(), Ok(PrintTypeInfo(0x400 | 0x10 | 6)));
    assert_eq!("UDF0".parse::<PrintId>().unwrap().0, *b"UDF0");
}

#[test]
fn follow_child_dataset() {
    let children = [FileOffset { offset: 64, size: 112 }, FileOffset { offset: 176, size: 32 }];
    let bytes: Vec<u8> = children
        .iter()
        .flat_map(|f| f.offset.to_le_bytes().into_iter().chain(f.size.to_le_bytes()))
        .collect();
    let names_bytes = f32_bytes(&[1.0]);
    let mut ds = Dataset::new();
    ds.names.add("kids", hash("kids"));
    ds.names.add("f", hash("f"));
    assert!(ds.add_table(TableRef {
        key_name: hash("kids"),
        data: DataRef {
            bytes: &bytes,
            type_info: udf::format::T_FILE_OFFSET,
            compress_info: COMPRESS_NONE,
            shape: Shape::D2(2, 2),
        },
        index_name: 0,
        related_name: 0,
    }));
    assert!(ds.add_table(TableRef {
        key_name: hash("f"),
        data: DataRef {
            bytes: &names_bytes,
            type_info: TYPE_DIM_1D | TYPE_PRIM_F32,
            compress_info: COMPRESS_NONE,
            shape: Shape::D1(1),
        },
        index_name: 0,
        related_name: 0,
    }));
    ds.finalize().unwrap();
    let view = ds.as_ref();
    assert_eq!(view.follow("kids", 1), Ok(children[1]));
    assert_eq!(view.follow("kids", 0), Ok(children[0]));
    assert_eq!(view.follow("kids", 2), Err(NavError::IndexOutOfRange));
    assert_eq!(view.follow("f", 0), Err(NavError::WrongType));
    assert_eq!(view.follow("nope", 0), Err(NavError::MissingName));
}

#[test]
fn simplu32_round_trip_method() {
    let data = [7u32, 7, 7, 8, 9, 1_000_000, 0, 0xdead_beef, 12];
    assert_eq!(SimpleU32.round_trip(&data), data.to_vec());
}

#[test]
fn simplu32_spec_streams() {
    let mut ones = vec![0u32];
    ones.extend(std::iter::repeat(1u32).take(17));
    let mut stream = Vec::new();
    SimpleU32.compress(&mut stream, &ones);
    assert_eq!(stream, vec![0xE0, 0xEF, 0xE0]);
    let mut stream = Vec::new();
    SimpleU32.compress(&mut stream, &[16209, 59, 3994, 59]);
    assert_eq!(stream, vec![0xC0, 0x3F, 0x50, 0xCF, 0xC0, 0xEA, 0x4F, 0x5E, 0xB8]);
    // Raw values share one VALUES header: 0x40000000 and 0x80000000 are too far
    // for any delta.
    let mut stream = Vec::new();
    SimpleU32.compress(&mut stream, &[0x4000_0000, 0x8000_0000]);
    assert_eq!(stream, vec![0xF1, 0, 0, 0, 0x40, 0, 0, 0, 0x80]);
    assert!(stream.len() <= 5 * 2);
}

#[test]
fn add_table_refuses_key_zero() {
    let bytes = [1u8, 2, 3];
    let mut ds = Dataset::new();
    let table = TableRef {
        key_name: 0,
        data: DataRef { bytes: &bytes, type_info: TYPE_PRIM_U8 | TYPE_DIM_1D, compress_info: COMPRESS_NONE, shape: Shape::D1(3) },
        index_name: 0,
        related_name: 0,
    };
    assert!(!ds.add_table(table));
    assert_eq!(ds.len(), 0);
    assert!(ds.storage.is_empty());
}

#[test]
fn parse_needs_whole_words() {
    let mut ds = Dataset::new();
    ds.finalize().unwrap();
    let mut file = ds.as_ref().to_bytes();
    file.push(0);
    assert_eq!(Dataset::parse(&file).err(), Some(ParseError::InvalidFormat));
    file.extend_from_slice(&[0; 7]);
    let back = Dataset::parse(&file).unwrap();
    assert_eq!(back.storage, vec![0u8; 8]);
}

#[test]
fn region_image_pads() {
    let img = region_image(FileOffset { offset: 64, size: 32 }, &[1, 2, 3]).unwrap();
    assert_eq!(img.len(), 32);
    assert_eq!(&img[..3], &[1, 2, 3]);
    assert!(img[3..].iter().all(|&b| b == 0));
    assert!(region_image(FileOffset { offset: 0, size: 0 }, &[]).is_none());
    assert!(region_image(FileOffset { offset: 8, size: 32 }, &[]).is_none());
    assert!(region_image(FileOffset { offset: 64, size: 16 }, &[0; 17]).is_none());
}

#[test]
fn walk_steps() {
    let child = FileOffset { offset: 176, size: 32 };
    let bytes: Vec<u8> = child.offset.to_le_bytes().into_iter().chain(child.size.to_le_bytes()).collect();
    let mut ds = Dataset::new();
    ds.names.add("kids", hash("kids"));
    ds.names.add("v", hash("v"));
    assert!(ds.add_table(TableRef {
        key_name: hash("kids"),
        data: DataRef { bytes: &bytes, type_info: udf::format::T_FILE_OFFSET, compress_info: COMPRESS_NONE, shape: Shape::D2(1, 2) },
        index_name: 0,
        related_name: 0,
    }));
    ds.finalize().unwrap();
    let view = ds.as_ref();
    let mut p = "kids[0].v";
    assert_eq!(view.walk_step(&mut p, &[]), Ok(WalkStep::Descend(child)));
    assert_eq!(p, "v");
    let mut p = "kids[0].v";
    assert_eq!(view.walk_step(&mut p, &[child]), Err(WalkError::Cycle));
    let mut p = "v";
    assert_eq!(view.walk_step(&mut p, &[]), Ok(WalkStep::Table(hash("v"))));
    let mut p = "v.w";
    assert_eq!(view.walk_step(&mut p, &[]), Err(WalkError::Malformed));
    let mut p = "w";
    assert_eq!(view.walk_step(&mut p, &[]), Err(WalkError::MissingName));
    let mut p = "kids[3]";
    assert_eq!(view.walk_step(&mut p, &[]), Err(WalkError::Nav(NavError::IndexOutOfRange)));
}
