use devinfo::text::compare_text;
use devinfo::{
    decode_property, decode_strings, split_segments, walk_nodes, DecodeError, DeviceKey,
    DiPropType, DiPropValue, OrdMap, RawNode, RawPayload, RawPromProp, RawProp, WalkError,
    Walker,
};
use std::cmp::Ordering;

fn key(name: &str, addr: Option<&str>) -> DeviceKey {
    DeviceKey {
        node_name: name.to_string(),
        unit_address: addr.map(|a| a.to_string()),
    }
}

fn ints_prop(name: &str, count: i32, data: Vec<i32>) -> RawProp {
    RawProp {
        name: name.to_string(),
        payload: RawPayload::Ints { count, data },
    }
}

fn node(name: &str, addr: Option<&str>, props: Vec<RawProp>, proms: Vec<RawPromProp>) -> RawNode {
    RawNode {
        name: name.to_string(),
        unit_address: addr.map(|a| a.to_string()),
        props,
        prom_props: proms,
    }
}

fn prom(name: &str, len: i32, data: &[u8]) -> RawPromProp {
    RawPromProp {
        name: name.to_string(),
        len,
        data: data.to_vec(),
    }
}

#[test]
fn matches_int_single_value() {
    assert!(DiPropValue::Ints(vec![0x1022]).matches_int(0x1022));
    assert!(!DiPropValue::Ints(vec![0x1022]).matches_int(0x1023));
}

#[test]
fn matches_int_rejects_multi_and_empty() {
    assert!(!DiPropValue::Ints(vec![7, 7]).matches_int(7));
    assert!(!DiPropValue::Ints(vec![]).matches_int(7));
}

#[test]
fn matches_int_rejects_other_variants() {
    assert!(!DiPropValue::Int64s(vec![7]).matches_int(7));
    assert!(!DiPropValue::Boolean(true).matches_int(1));
    assert!(!DiPropValue::Strings(vec!["7".to_string()]).matches_int(7));
}

#[test]
fn tags_map_to_types() {
    assert_eq!(DiPropType::from_tag(0), Some(DiPropType::Boolean));
    assert_eq!(DiPropType::from_tag(1), Some(DiPropType::Int));
    assert_eq!(DiPropType::from_tag(2), Some(DiPropType::String));
    assert_eq!(DiPropType::from_tag(3), Some(DiPropType::Byte));
    assert_eq!(DiPropType::from_tag(6), Some(DiPropType::Int64));
    assert_eq!(DiPropType::from_tag(7), None);
    assert_eq!(DiPropType::from_tag(-1), None);
}

#[test]
fn boolean_presence_is_true() {
    assert_eq!(
        decode_property(RawPayload::Flag),
        Ok(Some(DiPropValue::Boolean(true)))
    );
}

#[test]
fn ints_and_int64s_decode() {
    assert_eq!(
        decode_property(RawPayload::Ints { count: 2, data: vec![1, -2] }),
        Ok(Some(DiPropValue::Ints(vec![1, -2])))
    );
    assert_eq!(
        decode_property(RawPayload::Int64s { count: 1, data: vec![-5_000_000_000] }),
        Ok(Some(DiPropValue::Int64s(vec![-5_000_000_000])))
    );
}

#[test]
fn negative_count_fails_the_property() {
    assert_eq!(
        decode_property(RawPayload::Ints { count: -1, data: vec![] }),
        Err(DecodeError::NativeCallFailed)
    );
    assert_eq!(
        decode_property(RawPayload::Int64s { count: -1, data: vec![] }),
        Err(DecodeError::NativeCallFailed)
    );
    assert_eq!(
        decode_property(RawPayload::Text { count: -1, data: vec![] }),
        Err(DecodeError::NativeCallFailed)
    );
}

#[test]
fn untyped_payload_gives_no_value() {
    assert_eq!(decode_property(RawPayload::Other), Ok(None));
}

#[test]
fn strings_split_on_terminators() {
    assert_eq!(
        decode_property(RawPayload::Text { count: 2, data: b"abc\0def\0".to_vec() }),
        Ok(Some(DiPropValue::Strings(vec!["abc".to_string(), "def".to_string()])))
    );
}

#[test]
fn extra_terminator_adds_no_string() {
    assert_eq!(
        decode_property(RawPayload::Text { count: 2, data: b"abc\0def\0\0".to_vec() }),
        Ok(Some(DiPropValue::Strings(vec!["abc".to_string(), "def".to_string()])))
    );
}

#[test]
fn inner_empty_string_is_kept() {
    assert_eq!(
        decode_strings(b"a\0\0b\0"),
        Ok(vec!["a".to_string(), "".to_string(), "b".to_string()])
    );
}

#[test]
fn unterminated_last_string_is_kept() {
    assert_eq!(split_segments(b"ab\0cd"), vec![b"ab".to_vec(), b"cd".to_vec()]);
}

#[test]
fn empty_and_all_zero_blobs_have_no_strings() {
    assert!(split_segments(b"").is_empty());
    assert!(split_segments(b"\0\0").is_empty());
}

#[test]
fn non_ascii_text_decodes() {
    assert_eq!(
        decode_strings("héllo\0wörld\0".as_bytes()),
        Ok(vec!["héllo".to_string(), "wörld".to_string()])
    );
}

#[test]
fn invalid_utf8_is_an_encoding_error() {
    assert_eq!(
        decode_property(RawPayload::Text { count: 1, data: vec![b'a', 0xff, 0] }),
        Err(DecodeError::Encoding)
    );
}

#[test]
fn text_order_is_byte_order() {
    assert_eq!(compare_text("abc", "abd"), Ordering::Less);
    assert_eq!(compare_text("ab", "abc"), Ordering::Less);
    assert_eq!(compare_text("b", "abc"), Ordering::Greater);
    assert_eq!(compare_text("pci", "pci"), Ordering::Equal);
    assert_eq!(compare_text("z", "é"), Ordering::Less);
}

#[test]
fn ordmap_insert_replaces_and_sorts() {
    let mut m: OrdMap<String, Vec<u8>> = OrdMap::new();
    m.insert("b".to_string(), vec![2]);
    m.insert("a".to_string(), vec![1]);
    m.insert("c".to_string(), vec![3]);
    m.insert("b".to_string(), vec![9]);
    assert_eq!(m.len(), 3);
    assert_eq!(m.get(&"b".to_string()), Some(&vec![9]));
    assert_eq!(m.get(&"d".to_string()), None);
    let names: Vec<&str> = m.entries().iter().map(|e| e.0.as_str()).collect();
    assert_eq!(names, vec!["a", "b", "c"]);
}

#[test]
fn same_name_different_address_both_kept() {
    let nodes = vec![
        node("pci", Some("1"), vec![ints_prop("device-id", 1, vec![1])], vec![]),
        node("pci", Some("0"), vec![ints_prop("device-id", 1, vec![2])], vec![]),
        node("pci", None, vec![], vec![]),
    ];
    let snap = walk_nodes(Ok(nodes), false, false).unwrap();
    assert_eq!(snap.len(), 3);
    let keys: Vec<DeviceKey> = snap.entries().iter().map(|e| e.0.clone()).collect();
    assert_eq!(keys, vec![key("pci", None), key("pci", Some("0")), key("pci", Some("1"))]);
    let a = snap.get(&key("pci", Some("1"))).unwrap();
    assert_eq!(a.props.get(&"device-id".to_string()), Some(&DiPropValue::Ints(vec![1])));
    let b = snap.get(&key("pci", Some("0"))).unwrap();
    assert_eq!(b.props.get(&"device-id".to_string()), Some(&DiPropValue::Ints(vec![2])));
}

#[test]
fn equal_identity_last_node_wins() {
    let nodes = vec![
        node("cpu", Some("0"), vec![ints_prop("x", 1, vec![1])], vec![]),
        node("cpu", Some("0"), vec![ints_prop("y", 1, vec![2])], vec![]),
    ];
    let snap = walk_nodes(Ok(nodes), false, false).unwrap();
    assert_eq!(snap.len(), 1);
    let cpu = snap.get(&key("cpu", Some("0"))).unwrap();
    assert_eq!(cpu.props.get(&"x".to_string()), None);
    assert_eq!(cpu.props.get(&"y".to_string()), Some(&DiPropValue::Ints(vec![2])));
}

#[test]
fn failed_property_leaves_other_nodes_whole() {
    let nodes = vec![
        node(
            "a",
            None,
            vec![ints_prop("vendor-id", 1, vec![0x10]), RawProp {
                name: "flag".to_string(),
                payload: RawPayload::Flag,
            }],
            vec![],
        ),
        node("b", None, vec![ints_prop("vendor-id", -1, vec![])], vec![]),
        node(
            "c",
            None,
            vec![RawProp {
                name: "model".to_string(),
                payload: RawPayload::Text { count: 1, data: b"x\0".to_vec() },
            }],
            vec![],
        ),
    ];
    let snap = walk_nodes(Ok(nodes), false, false).unwrap();
    assert_eq!(snap.len(), 3);
    let a = snap.get(&key("a", None)).unwrap();
    assert_eq!(a.props.len(), 2);
    assert!(a.props.get(&"vendor-id".to_string()).unwrap().matches_int(0x10));
    assert_eq!(a.props.get(&"flag".to_string()), Some(&DiPropValue::Boolean(true)));
    let b = snap.get(&key("b", None)).unwrap();
    assert_eq!(b.props.len(), 0);
    let c = snap.get(&key("c", None)).unwrap();
    assert_eq!(
        c.props.get(&"model".to_string()),
        Some(&DiPropValue::Strings(vec!["x".to_string()]))
    );
}

#[test]
fn failed_firmware_handle_leaves_prom_empty() {
    let nodes = vec![
        node("a", None, vec![], vec![prom("reg", 2, &[1, 2])]),
        node("b", None, vec![], vec![prom("name", 1, &[7])]),
    ];
    let snap = walk_nodes(Ok(nodes), true, false).unwrap();
    assert_eq!(snap.len(), 2);
    for e in snap.entries().iter() {
        assert_eq!(e.1.prom_props.len(), 0);
    }
}

#[test]
fn firmware_properties_read_when_available() {
    let nodes = vec![node(
        "a",
        None,
        vec![],
        vec![prom("reg", 2, &[1, 2]), prom("bad", -1, &[]), prom("empty", 0, &[])],
    )];
    let snap = walk_nodes(Ok(nodes), true, true).unwrap();
    let a = snap.get(&key("a", None)).unwrap();
    assert_eq!(a.prom_props.len(), 2);
    assert_eq!(a.prom_props.get(&"reg".to_string()), Some(&vec![1, 2]));
    assert_eq!(a.prom_props.get(&"bad".to_string()), None);
    assert_eq!(a.prom_props.get(&"empty".to_string()), Some(&vec![]));
}

#[test]
fn firmware_not_requested_is_ignored() {
    let nodes = vec![node("a", None, vec![], vec![prom("reg", 2, &[1, 2])])];
    let snap = walk_nodes(Ok(nodes), false, true).unwrap();
    assert_eq!(snap.get(&key("a", None)).unwrap().prom_props.len(), 0);
}

#[test]
fn tree_open_failure_is_fatal() {
    let r = walk_nodes(Err(13), true, true);
    assert_eq!(r.err(), Some(WalkError::TreeOpenFailed(13)));
}

#[test]
fn walker_stops_firmware_for_rest_of_walk() {
    let mut w = Walker::new(true);
    assert!(w.wants_firmware());
    w.visit(node("a", None, vec![], vec![prom("reg", 1, &[5])]));
    w.firmware_unavailable();
    assert!(!w.wants_firmware());
    w.visit(node("b", None, vec![], vec![prom("reg", 1, &[6])]));
    let snap = w.finish();
    assert_eq!(snap.get(&key("a", None)).unwrap().prom_props.len(), 1);
    assert_eq!(snap.get(&key("b", None)).unwrap().prom_props.len(), 0);
}

#[test]
fn device_info_starts_empty() {
    let info = devinfo::DeviceInfo::new();
    assert_eq!(info.props.len(), 0);
    assert_eq!(info.prom_props.len(), 0);
}
