use bg3_save::arena::AttrValue;
use bg3_save::error::Error;
use bg3_save::lsf::decode;
use bg3_save::value::Value;

fn u32le(out: &mut Vec<u8>, v: u32) {
    out.extend_from_slice(&v.to_le_bytes());
}

fn strings(out: &mut Vec<u8>, names: &[&str]) {
    u32le(out, names.len() as u32);
    for n in names {
        out.extend_from_slice(&(n.len() as u16).to_le_bytes());
        out.extend_from_slice(n.as_bytes());
    }
}

/// Strings: 0 Root, 1 Name, 2 Item, 3 Child, 4 Level.
/// Nodes: 0 Child { Level: U32 7 }, 1 Child { Level: I32 -2 },
/// 2 Root { Name: Text "Foo" } with group Item = [0, 1]. Root table: Root -> 2.
fn fixture() -> Vec<u8> {
    let mut out = b"LSOF".to_vec();
    strings(&mut out, &["Root", "Name", "Item", "Child", "Level"]);
    u32le(&mut out, 3);
    // node 0
    u32le(&mut out, 3);
    u32le(&mut out, 1);
    u32le(&mut out, 4);
    out.push(3);
    u32le(&mut out, 7);
    u32le(&mut out, 0);
    // node 1
    u32le(&mut out, 3);
    u32le(&mut out, 1);
    u32le(&mut out, 4);
    out.push(2);
    u32le(&mut out, (-2i32) as u32);
    u32le(&mut out, 0);
    // node 2
    u32le(&mut out, 0);
    u32le(&mut out, 1);
    u32le(&mut out, 1);
    out.push(4);
    u32le(&mut out, 3);
    out.extend_from_slice(b"Foo");
    u32le(&mut out, 1);
    u32le(&mut out, 2);
    u32le(&mut out, 2);
    u32le(&mut out, 0);
    u32le(&mut out, 1);
    // roots
    u32le(&mut out, 1);
    u32le(&mut out, 0);
    u32le(&mut out, 2);
    out
}

fn key(s: &str) -> Vec<u8> {
    s.as_bytes().to_vec()
}

fn node(attrs: Vec<(Vec<u8>, Value)>, groups: Vec<(Vec<u8>, Value)>) -> Value {
    Value::Table(vec![(key("attributes"), Value::Table(attrs)), (key("children"), Value::Table(groups))])
}

fn same_keys(a: &Value, b: &Value) -> bool {
    match (a, b) {
        (Value::Table(x), Value::Table(y)) => {
            x.len() == y.len()
                && x.iter().zip(y.iter()).all(|(p, q)| p.0 == q.0 && same_keys(&p.1, &q.1))
        }
        (Value::List(x), Value::List(y)) => {
            x.len() == y.len() && x.iter().zip(y.iter()).all(|(p, q)| same_keys(p, q))
        }
        (Value::Table(_), _) | (Value::List(_), _) | (_, Value::Table(_)) | (_, Value::List(_)) => false,
        _ => true,
    }
}

#[test]
fn round_trip_shape_of_minimal_fixture() {
    let arena = decode(&fixture()).unwrap();
    assert_eq!(arena.node_count(), 3);
    let root = arena.root_index(b"Root").unwrap();
    assert_eq!(root, 2);
    let v = arena.serialize(root, false).unwrap();
    let child0 = node(vec![(key("Level"), Value::Int(7))], vec![]);
    let child1 = node(vec![(key("Level"), Value::Int(-2))], vec![]);
    let expected = node(
        vec![(key("Name"), Value::Text(key("Foo")))],
        vec![(key("Item"), Value::List(vec![child0, child1]))],
    );
    assert_eq!(v, expected);
}

#[test]
fn serialize_twice_gives_equal_output() {
    let arena = decode(&fixture()).unwrap();
    assert_eq!(arena.serialize(2, false).unwrap(), arena.serialize(2, false).unwrap());
    assert_eq!(arena.serialize(2, true).unwrap(), arena.serialize(2, true).unwrap());
    assert_eq!(arena.serialize_all(false).unwrap(), arena.serialize_all(false).unwrap());
}

#[test]
fn reachable_indices_are_valid_and_out_of_range_fails() {
    let arena = decode(&fixture()).unwrap();
    let mut stack = vec![arena.root_index(b"Root").unwrap()];
    let mut seen = 0;
    while let Some(i) = stack.pop() {
        let n = arena.get_node(i).unwrap();
        seen += 1;
        for (_, kids) in n.children.iter() {
            stack.extend(kids.iter().copied());
        }
    }
    assert_eq!(seen, 3);
    assert_eq!(arena.get_node(3).unwrap_err(), Error::Index);
    assert_eq!(arena.get_node(usize::MAX).unwrap_err(), Error::Index);
}

#[test]
fn every_truncation_is_a_format_error() {
    let data = fixture();
    for n in 0..data.len() {
        match decode(&data[..n]) {
            Err(Error::Format { .. }) => {}
            other => panic!("prefix {} gave {:?}", n, other.map(|a| a.node_count())),
        }
    }
    assert!(decode(&data).is_ok());
}

#[test]
fn shape_mode_has_the_same_keys_as_full_mode() {
    let arena = decode(&fixture()).unwrap();
    let full = arena.serialize_all(false).unwrap();
    let shape = arena.serialize_all(true).unwrap();
    assert!(same_keys(&full, &shape));
    assert_ne!(full, shape);
    let child = || node(vec![(key("Level"), Value::Bool(true))], vec![]);
    let expected = Value::Table(vec![(
        key("Root"),
        node(
            vec![(key("Name"), Value::Bool(true))],
            vec![(key("Item"), Value::List(vec![child(), child()]))],
        ),
    )]);
    assert_eq!(shape, expected);
}

#[test]
fn attribute_values_are_typed() {
    let arena = decode(&fixture()).unwrap();
    let n0 = arena.get_node(0).unwrap();
    assert_eq!(n0.name, key("Child"));
    assert_eq!(n0.attributes, vec![(key("Level"), AttrValue::U32(7))]);
    let n1 = arena.get_node(1).unwrap();
    assert_eq!(n1.attributes, vec![(key("Level"), AttrValue::I32(-2))]);
    assert_eq!(arena.root_names(), vec![key("Root")]);
    assert_eq!(arena.root_index(b"Other").unwrap_err(), Error::NotFound);
}

#[test]
fn bad_signature_is_rejected() {
    let mut data = fixture();
    data[0] = b'X';
    assert!(matches!(decode(&data), Err(Error::Format { offset: 0 })));
    assert!(matches!(decode(b""), Err(Error::Format { .. })));
}

#[test]
fn trailing_bytes_are_rejected() {
    let mut data = fixture();
    data.push(0);
    assert!(matches!(decode(&data), Err(Error::Format { .. })));
}

fn single_node(tag: u8, payload: &[u8], child: Option<u32>, root: u32) -> Vec<u8> {
    let mut out = b"LSOF".to_vec();
    strings(&mut out, &["A", "B"]);
    u32le(&mut out, 1);
    u32le(&mut out, 0);
    u32le(&mut out, 1);
    u32le(&mut out, 1);
    out.push(tag);
    out.extend_from_slice(payload);
    match child {
        Some(c) => {
            u32le(&mut out, 1);
            u32le(&mut out, 1);
            u32le(&mut out, 1);
            u32le(&mut out, c);
        }
        None => u32le(&mut out, 0),
    }
    u32le(&mut out, 1);
    u32le(&mut out, 0);
    u32le(&mut out, root);
    out
}

#[test]
fn each_attribute_kind_decodes() {
    let a = decode(&single_node(0, &[1], None, 0)).unwrap();
    assert_eq!(a.get_node(0).unwrap().attributes[0].1, AttrValue::Bool(true));
    let a = decode(&single_node(1, &[200], None, 0)).unwrap();
    assert_eq!(a.get_node(0).unwrap().attributes[0].1, AttrValue::U8(200));
    let a = decode(&single_node(5, &[2, 0, 0, 0, 9, 8], None, 0)).unwrap();
    assert_eq!(a.get_node(0).unwrap().attributes[0].1, AttrValue::Binary(vec![9, 8]));
    let v = a.serialize(0, false).unwrap();
    assert_eq!(v, node(vec![(key("B"), Value::Bytes(vec![9, 8]))], vec![]));
}

#[test]
fn unknown_type_tag_is_rejected() {
    assert!(matches!(decode(&single_node(6, &[0], None, 0)), Err(Error::Format { .. })));
    assert!(matches!(decode(&single_node(0, &[2], None, 0)), Err(Error::Format { .. })));
}

#[test]
fn forward_child_reference_is_rejected() {
    assert!(matches!(decode(&single_node(1, &[1], Some(0), 0)), Err(Error::Format { .. })));
}

#[test]
fn root_out_of_range_is_rejected() {
    assert!(matches!(decode(&single_node(1, &[1], None, 1)), Err(Error::Format { .. })));
}

#[test]
fn duplicate_attribute_name_is_rejected() {
    let mut out = b"LSOF".to_vec();
    strings(&mut out, &["A"]);
    u32le(&mut out, 1);
    u32le(&mut out, 0);
    u32le(&mut out, 2);
    for _ in 0..2 {
        u32le(&mut out, 0);
        out.push(1);
        out.push(5);
    }
    u32le(&mut out, 0);
    u32le(&mut out, 0);
    assert!(matches!(decode(&out), Err(Error::Format { .. })));
}

#[test]
fn bad_string_reference_is_rejected() {
    let mut out = b"LSOF".to_vec();
    strings(&mut out, &["A"]);
    u32le(&mut out, 1);
    u32le(&mut out, 1);
    u32le(&mut out, 0);
    u32le(&mut out, 0);
    u32le(&mut out, 0);
    assert!(matches!(decode(&out), Err(Error::Format { .. })));
}

#[test]
fn string_table_decodes_in_order() {
    let mut out = vec![0xAA];
    strings(&mut out, &["ab", "", "c"]);
    let (table, next) = bg3_save::lsf::decode_strings(&out, 1).unwrap();
    assert_eq!(table, vec![key("ab"), key(""), key("c")]);
    assert_eq!(next, out.len());
    assert!(matches!(bg3_save::lsf::decode_strings(&out[..out.len() - 1], 1), Err(Error::Format { .. })));
}

#[test]
fn attribute_payloads_decode_by_tag() {
    let (v, next) = bg3_save::lsf::decode_attr_value(&[0xFE, 0xFF, 0xFF, 0xFF], 0, 2).unwrap();
    assert_eq!(v, AttrValue::I32(-2));
    assert_eq!(next, 4);
    let (v, next) = bg3_save::lsf::decode_attr_value(&[9, 2, 0, 0, 0, b'h', b'i'], 1, 4).unwrap();
    assert_eq!(v, AttrValue::Text(key("hi")));
    assert_eq!(next, 7);
    assert!(matches!(bg3_save::lsf::decode_attr_value(&[0], 0, 9), Err(Error::Format { .. })));
    assert!(matches!(bg3_save::lsf::decode_attr_value(&[3, 0, 0, 0, 1], 0, 4), Err(Error::Format { .. })));
}

#[test]
fn empty_arena_decodes() {
    let mut out = b"LSOF".to_vec();
    out.extend_from_slice(&[0; 12]);
    let a = decode(&out).unwrap();
    assert_eq!(a.node_count(), 0);
    assert_eq!(a.serialize_all(false).unwrap(), Value::Table(vec![]));
    assert_eq!(a.get_node(0).unwrap_err(), Error::Index);
}

/// A chain of `n` nodes, each the only child of the next; the last is the root.
fn chain(n: u32) -> Vec<u8> {
    let mut out = b"LSOF".to_vec();
    strings(&mut out, &["N", "C"]);
    u32le(&mut out, n);
    for i in 0..n {
        u32le(&mut out, 0);
        u32le(&mut out, 0);
        if i == 0 {
            u32le(&mut out, 0);
        } else {
            u32le(&mut out, 1);
            u32le(&mut out, 1);
            u32le(&mut out, 1);
            u32le(&mut out, i - 1);
        }
    }
    u32le(&mut out, 1);
    u32le(&mut out, 0);
    u32le(&mut out, n - 1);
    out
}

#[test]
fn depth_guard_rejects_too_deep_trees() {
    let ok = decode(&chain(512)).unwrap();
    assert!(ok.serialize(511, true).is_ok());
    assert!(ok.serialize_all(false).is_ok());
    let deep = decode(&chain(513)).unwrap();
    assert_eq!(deep.serialize(512, false), Err(Error::Format { offset: 0 }));
    assert_eq!(deep.serialize_all(true), Err(Error::Format { offset: 0 }));
    assert!(deep.serialize(511, false).is_ok());
    let huge = decode(&chain(200_000)).unwrap();
    assert_eq!(huge.serialize(199_999, true), Err(Error::Format { offset: 0 }));
}

#[test]
fn serialize_out_of_range_is_index_error() {
    let arena = decode(&fixture()).unwrap();
    assert_eq!(arena.serialize(3, false), Err(Error::Index));
}

#[test]
fn format_errors_name_the_offending_offset() {
    assert_eq!(decode(&single_node(6, &[0], None, 0)).unwrap_err(), Error::Format { offset: 31 });
    assert_eq!(decode(&single_node(0, &[2], None, 0)).unwrap_err(), Error::Format { offset: 31 });
    assert_eq!(decode(&single_node(1, &[1], Some(0), 0)).unwrap_err(), Error::Format { offset: 44 });
    assert_eq!(decode(&single_node(1, &[1], None, 1)).unwrap_err(), Error::Format { offset: 40 });
    let mut data = fixture();
    let n = data.len();
    data.push(0);
    assert_eq!(decode(&data).unwrap_err(), Error::Format { offset: n });
    assert_eq!(decode(&fixture()[..n - 2]).unwrap_err(), Error::Format { offset: n - 4 });
}
