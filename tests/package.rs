use bg3_save::error::Error;
use bg3_save::package::{check_inflated, Compression, Package};
use bg3_save::value::Value;
use bg3_save::LarianSaveFile;

fn u32le(out: &mut Vec<u8>, v: u32) {
    out.extend_from_slice(&v.to_le_bytes());
}

/// A package holding `entries` as (name, kind, stored bytes, declared size).
fn build(entries: &[(&str, u8, Vec<u8>, u32)]) -> Vec<u8> {
    let mut index = Vec::new();
    let header_len: usize = 8 + entries.iter().map(|e| 15 + e.0.len()).sum::<usize>();
    let mut offset = header_len;
    for (name, kind, bytes, declared) in entries {
        index.extend_from_slice(&(name.len() as u16).to_le_bytes());
        index.extend_from_slice(name.as_bytes());
        u32le(&mut index, offset as u32);
        u32le(&mut index, bytes.len() as u32);
        u32le(&mut index, *declared);
        index.push(*kind);
        offset += bytes.len();
    }
    let mut out = b"LSPK".to_vec();
    u32le(&mut out, entries.len() as u32);
    out.extend_from_slice(&index);
    for e in entries {
        out.extend_from_slice(&e.2);
    }
    out
}

fn stored(name: &str, bytes: Vec<u8>) -> (&str, u8, Vec<u8>, u32) {
    let n = bytes.len() as u32;
    (name, 0, bytes, n)
}

fn strings(out: &mut Vec<u8>, names: &[&str]) {
    u32le(out, names.len() as u32);
    for n in names {
        out.extend_from_slice(&(n.len() as u16).to_le_bytes());
        out.extend_from_slice(n.as_bytes());
    }
}

/// A resource with root region `Globals`: a node with an attribute `Seed`
/// and the groups `Party` (two children) and `Flags` (none).
fn globals_resource() -> Vec<u8> {
    let mut out = b"LSOF".to_vec();
    strings(&mut out, &["Globals", "Seed", "Party", "Flags", "Member"]);
    u32le(&mut out, 3);
    for _ in 0..2 {
        u32le(&mut out, 4);
        u32le(&mut out, 0);
        u32le(&mut out, 0);
    }
    u32le(&mut out, 0);
    u32le(&mut out, 1);
    u32le(&mut out, 1);
    out.push(3);
    u32le(&mut out, 42);
    u32le(&mut out, 2);
    u32le(&mut out, 2);
    u32le(&mut out, 2);
    u32le(&mut out, 0);
    u32le(&mut out, 1);
    u32le(&mut out, 3);
    u32le(&mut out, 0);
    u32le(&mut out, 1);
    u32le(&mut out, 0);
    u32le(&mut out, 2);
    out
}

fn key(s: &str) -> Vec<u8> {
    s.as_bytes().to_vec()
}

#[test]
fn globals_children_follow_stored_groups() {
    let data = build(&[stored("globals.lsf", globals_resource()), stored("level1.lsf", vec![1, 2, 3])]);
    let save = LarianSaveFile::open(data).unwrap();
    assert_eq!(save.0.list_entries(), vec![key("globals.lsf"), key("level1.lsf")]);
    let res = save.load_globals().unwrap();
    let v = res.to_value(false).unwrap();
    let Value::Table(roots) = v else { panic!("not a table") };
    assert_eq!(roots.len(), 1);
    assert_eq!(roots[0].0, key("Globals"));
    let Value::Table(top) = &roots[0].1 else { panic!("not a table") };
    assert_eq!(top[0].0, key("attributes"));
    assert_eq!(top[1].0, key("children"));
    let Value::Table(groups) = &top[1].1 else { panic!("not a table") };
    let names: Vec<Vec<u8>> = groups.iter().map(|g| g.0.clone()).collect();
    let root = res.0.root_index(b"Globals").unwrap();
    let stored_names: Vec<Vec<u8>> = res.0.get_node(root).unwrap().children.iter().map(|g| g.0.clone()).collect();
    assert_eq!(names, stored_names);
    assert_eq!(names, vec![key("Party"), key("Flags")]);
    assert!(matches!(&groups[0].1, Value::List(l) if l.len() == 2));
    assert!(matches!(&groups[1].1, Value::List(l) if l.is_empty()));
}

#[test]
fn missing_entry_is_not_found() {
    let data = build(&[stored("globals.lsf", vec![9; 4])]);
    let p = Package::open(data).unwrap();
    assert_eq!(p.read_entry(b"level1.lsf"), Err(Error::NotFound));
    assert_eq!(p.read_entry(b"Globals.lsf"), Err(Error::NotFound));
    assert_eq!(p.read_entry(b"globals.lsf"), Ok(vec![9; 4]));
    let save = LarianSaveFile::open(build(&[stored("level1.lsf", vec![])])).unwrap();
    assert!(matches!(save.load_globals(), Err(Error::NotFound)));
}

#[test]
fn stored_entries_read_back_exactly() {
    let data = build(&[stored("a/b.lsf", vec![1, 2, 3]), stored("c", vec![4, 5])]);
    let p = Package::open(data).unwrap();
    assert_eq!(p.entries[0].compression, Compression::Stored);
    assert_eq!(p.read_entry(b"a/b.lsf").unwrap(), vec![1, 2, 3]);
    assert_eq!(p.read_entry(b"c").unwrap(), vec![4, 5]);
}

#[test]
fn lz4_entry_is_inflated() {
    let plain: Vec<u8> = b"abcabcabcabcabcabcabcabc hello hello hello".to_vec();
    let packed = lz4_flex::block::compress(&plain);
    assert_ne!(packed, plain);
    let data = build(&[("z", 1, packed, plain.len() as u32)]);
    let p = Package::open(data).unwrap();
    assert_eq!(p.read_entry(b"z").unwrap(), plain);
}

#[test]
fn lz4_size_mismatch_is_a_decompression_error() {
    let plain: Vec<u8> = b"abcabcabcabcabcabcabcabc".to_vec();
    let packed = lz4_flex::block::compress(&plain);
    let data = build(&[("z", 1, packed.clone(), plain.len() as u32 + 5), ("y", 1, packed, 3)]);
    let p = Package::open(data).unwrap();
    assert_eq!(p.read_entry(b"z"), Err(Error::Decompression));
    assert_eq!(p.read_entry(b"y"), Err(Error::Decompression));
}

#[test]
fn corrupt_lz4_is_a_decompression_error() {
    let data = build(&[("z", 1, vec![0xff, 0xff, 0xff], 10)]);
    let p = Package::open(data).unwrap();
    assert_eq!(p.read_entry(b"z"), Err(Error::Decompression));
}

#[test]
fn inflated_payload_must_match_declared_size() {
    assert_eq!(check_inflated(Some(vec![1, 2, 3]), 3), Ok(vec![1, 2, 3]));
    assert_eq!(check_inflated(Some(vec![1, 2, 3]), 4), Err(Error::Decompression));
    assert_eq!(check_inflated(None, 0), Err(Error::Decompression));
}

#[test]
fn unknown_compression_kind_is_a_format_error() {
    let data = build(&[("z", 7, vec![1], 1)]);
    assert!(matches!(Package::open(data), Err(Error::Format { .. })));
}

#[test]
fn bad_package_headers_are_format_errors() {
    assert!(matches!(Package::open(b"LSP".to_vec()), Err(Error::Format { .. })));
    assert!(matches!(Package::open(b"ZIPK\0\0\0\0".to_vec()), Err(Error::Format { offset: 0 })));
    let mut huge = b"LSPK".to_vec();
    u32le(&mut huge, 1000);
    assert!(matches!(Package::open(huge), Err(Error::Format { .. })));
    let full = build(&[stored("a", vec![1, 2, 3])]);
    for n in 0..full.len() - 3 {
        assert!(matches!(Package::open(full[..n].to_vec()), Err(Error::Format { .. })));
    }
}

#[test]
fn entry_outside_package_is_a_format_error() {
    let mut data = build(&[stored("a", vec![1, 2, 3])]);
    data.pop();
    assert!(matches!(Package::open(data), Err(Error::Format { .. })));
}

#[test]
fn duplicate_entry_names_are_a_format_error() {
    let data = build(&[stored("a", vec![1]), stored("a", vec![2])]);
    assert!(matches!(Package::open(data), Err(Error::Format { .. })));
}

#[test]
fn corrupt_resource_entry_is_a_format_error() {
    let data = build(&[stored("globals.lsf", vec![b'L', b'S', b'O'])]);
    let save = LarianSaveFile::open(data).unwrap();
    assert!(matches!(save.load_globals(), Err(Error::Format { .. })));
}

#[test]
fn lz4_entry_beyond_decoder_bounds_is_a_decompression_error() {
    let packed = lz4_flex::block::compress(b"abcabcabc");
    let data = build(&[("big", 1, packed, 0x8000_0000)]);
    let p = Package::open(data).unwrap();
    assert_eq!(p.read_entry(b"big"), Err(Error::Decompression));
    let long = vec![0u8; 8_388_608];
    let data = build(&[("long", 1, long, 16)]);
    let p = Package::open(data).unwrap();
    assert_eq!(p.read_entry(b"long"), Err(Error::Decompression));
}
