use lazypacket::packet_logger::PacketDirection;
use lazypacket::protocol::{
    parse_packet_id, read_packet_id, DecodedPacket, PacketBound, ProtocolParser, SchemaError,
};
use lazypacket::resolver::{parse_count_type, TypeResolver};
use lazypacket::schema::{classify, EntryKind, SchemaNode};
use lazypacket::types::{CountType, FieldType, ProtoType};
use lazypacket::value::Value;
use lazypacket::wire::DecodeError;

fn node(v: &serde_yaml::Value) -> SchemaNode {
    match v {
        serde_yaml::Value::Null => SchemaNode::Null,
        serde_yaml::Value::Bool(b) => SchemaNode::Bool(*b),
        serde_yaml::Value::Number(n) => match n.as_u64() {
            Some(u) => SchemaNode::UInt(u),
            None => SchemaNode::Other,
        },
        serde_yaml::Value::String(s) => SchemaNode::Str(s.clone()),
        serde_yaml::Value::Sequence(items) => SchemaNode::Sequence(items.iter().map(node).collect()),
        serde_yaml::Value::Mapping(m) => {
            SchemaNode::Mapping(m.iter().map(|(k, v)| (node(k), node(v))).collect())
        }
        serde_yaml::Value::Tagged(_) => SchemaNode::Other,
    }
}

fn doc(text: &str) -> SchemaNode {
    node(&serde_yaml::from_str::<serde_yaml::Value>(text).unwrap())
}

fn load(text: &str) -> ProtocolParser {
    ProtocolParser::from_document(&doc(text), "1.21.111").unwrap()
}

fn entries(d: &SchemaNode) -> &[(SchemaNode, SchemaNode)] {
    match d {
        SchemaNode::Mapping(e) => e,
        _ => panic!("not a mapping"),
    }
}

const SCHEMA: &str = r#"
"!version": "1.21.111"
varint64: native
string: ["pstring", {countType: varint}]
ByteArray: ["buffer", {countType: varint}]
SmallArray: ["buffer"]
Wrapped: ["encapsulated", "u32"]
Name: string
Names: "Name[]li16"
vec3i:
  x: zigzag32
  y: varint
  z: zigzag32
packet_ping:
  "!id": "0x01"
  "!bound": both
  payload: u8
packet_move:
  "!id": 19
  "!bound": client
  position: vec3i
  "_": {}
  name: Name
  tags: Names
  blob: ByteArray
packet_chat:
  "!id": "0x09"
  "!bound": Server
  message: string
  extra: unknown_thing
  after: u8
"#;

#[test]
fn test_protocol_loading() {
    let parser = ProtocolParser::from_document(&doc(SCHEMA), "1.21.111");
    assert!(parser.is_ok());
    if let Ok(p) = parser {
        assert!(p.packet_count() > 0);
    }
}

#[test]
fn test_extract_packet_id() {
    let parser = load(SCHEMA);

    // Test varint extraction: 0x01 should decode to 1
    let data = vec![0x01];
    assert_eq!(parser.extract_packet_id(&data), Some(1));

    // Test larger varint: 0x81 0x01 decodes to 129
    let data = vec![0x81, 0x01];
    assert_eq!(parser.extract_packet_id(&data), Some(129));
}

#[test]
fn packet_id_falls_back_to_the_first_byte() {
    assert_eq!(read_packet_id(&[]), None);
    assert_eq!(read_packet_id(&[0x01, 0x2a]), Some((1, 1)));
    assert_eq!(read_packet_id(&[0x81, 0x01, 0x2a]), Some((129, 2)));
    // Continuation still set on the fifth byte.
    assert_eq!(read_packet_id(&[0x85, 0x80, 0x80, 0x80, 0x80, 0x01]), Some((0x85, 1)));
    // The datagram ends inside the varint.
    assert_eq!(read_packet_id(&[0x85]), Some((0x85, 1)));
    let parser = load(SCHEMA);
    assert_eq!(parser.extract_packet_id(&[]), None);
    assert_eq!(parser.extract_packet_id(&[0xff, 0xff]), Some(0xff));
}

#[test]
fn varint_id_and_one_u8_field() {
    let parser = load("packet_ping:\n  \"!id\": 0x01\n  \"!bound\": both\n  payload: u8\n");
    let decoded = parser.decode_packet(&[0x01, 0x2a], PacketDirection::Serverbound);
    assert_eq!(
        decoded,
        DecodedPacket {
            packet_id: Some(1),
            packet_name: Some("packet_ping".to_string()),
            fields: vec![("payload".to_string(), Value::Int(42))],
            partial_errors: vec![],
        }
    );
    let decoded = parser.decode_packet(&[0x01, 0x2a], PacketDirection::Clientbound);
    assert_eq!(decoded.packet_name, Some("packet_ping".to_string()));
}

#[test]
fn schema_tables() {
    let parser = load(SCHEMA);
    assert_eq!(parser.version(), "1.21.111");
    assert_eq!(parser.packet_count(), 3);
    assert_eq!(parser.containers.len(), 1);
    assert_eq!(parser.containers[0].name, "vec3i");
    let names: Vec<&str> = parser.containers[0].fields.iter().map(|f| f.name.as_str()).collect();
    assert_eq!(names, vec!["x", "y", "z"]);
    let ping = parser.get_packet_info(1).unwrap();
    assert_eq!(ping.name, "packet_ping");
    assert_eq!(ping.bound, PacketBound::Both);
    assert_eq!(ping.fields.len(), 1);
    assert_eq!(ping.fields[0].ty, FieldType::Known(ProtoType::U8));
    let mv = parser.get_packet_info(19).unwrap();
    assert_eq!(mv.bound, PacketBound::Client);
    let types: Vec<(String, FieldType)> =
        mv.fields.iter().map(|f| (f.name.clone(), f.ty.clone())).collect();
    assert_eq!(
        types,
        vec![
            ("position".to_string(), FieldType::Known(ProtoType::Container("vec3i".to_string()))),
            ("_".to_string(), FieldType::Unresolved(DecodeError::UnknownType)),
            ("name".to_string(), FieldType::Known(ProtoType::String(CountType::VarInt))),
            (
                "tags".to_string(),
                FieldType::Known(ProtoType::Array(
                    Box::new(ProtoType::String(CountType::VarInt)),
                    CountType::LI16
                ))
            ),
            ("blob".to_string(), FieldType::Known(ProtoType::Buffer(CountType::VarInt))),
        ]
    );
    assert!(parser.get_packet_info(2).is_none());
}

#[test]
fn packet_with_container_array_and_buffer() {
    let parser = load(SCHEMA);
    let data = [
        19, // id
        0x03, 0x05, 0x04, // position: x = -2, y = 5, z = 2
        0x02, b'h', b'i', // name
        0x02, 0x00, 0x01, b'a', 0x00, // tags
        0x01, 0xff, // blob
    ];
    let decoded = parser.decode_packet(&data, PacketDirection::Clientbound);
    assert_eq!(decoded.packet_id, Some(19));
    assert_eq!(decoded.packet_name, Some("packet_move".to_string()));
    assert_eq!(decoded.partial_errors, vec![]);
    assert_eq!(
        decoded.fields,
        vec![
            (
                "position".to_string(),
                Value::Object(vec![
                    ("x".to_string(), Value::Int(-2)),
                    ("y".to_string(), Value::Int(5)),
                    ("z".to_string(), Value::Int(2)),
                ])
            ),
            ("name".to_string(), Value::Str("hi".to_string())),
            (
                "tags".to_string(),
                Value::Array(vec![Value::Str("a".to_string()), Value::Str("".to_string())])
            ),
            ("blob".to_string(), Value::Str("0xff".to_string())),
        ]
    );
}

#[test]
fn lookup_honours_the_bound() {
    let parser = load(SCHEMA);
    let data = [19, 0x03, 0x05, 0x04, 0x00, 0x00, 0x00, 0x00];
    let wrong_way = parser.decode_packet(&data, PacketDirection::Serverbound);
    assert_eq!(
        wrong_way,
        DecodedPacket {
            packet_id: Some(19),
            packet_name: None,
            fields: vec![],
            partial_errors: vec![],
        }
    );
    assert!(parser.lookup(19, PacketDirection::Clientbound).is_some());
    assert!(parser.lookup(9, PacketDirection::Serverbound).is_some());
    assert!(parser.lookup(9, PacketDirection::Clientbound).is_none());
}

#[test]
fn duplicate_ids_are_told_apart_by_direction() {
    let parser = load(
        "packet_a:\n  \"!id\": 5\n  \"!bound\": client\n  a: u8\npacket_b:\n  \"!id\": 5\n  \"!bound\": server\n  b: u16\n",
    );
    assert_eq!(parser.packet_count(), 2);
    let c = parser.decode_packet(&[5, 1, 0], PacketDirection::Clientbound);
    assert_eq!(c.packet_name, Some("packet_a".to_string()));
    assert_eq!(c.fields, vec![("a".to_string(), Value::Int(1))]);
    let s = parser.decode_packet(&[5, 1, 0], PacketDirection::Serverbound);
    assert_eq!(s.packet_name, Some("packet_b".to_string()));
    assert_eq!(s.fields, vec![("b".to_string(), Value::Int(1))]);
    assert_eq!(parser.get_packet_info(5).unwrap().name, "packet_b");
}

#[test]
fn unknown_packet_id_is_no_error() {
    let parser = load(SCHEMA);
    let decoded = parser.decode_packet(&[0x7f, 1, 2, 3], PacketDirection::Clientbound);
    assert_eq!(
        decoded,
        DecodedPacket {
            packet_id: Some(0x7f),
            packet_name: None,
            fields: vec![],
            partial_errors: vec![],
        }
    );
    let empty = parser.decode_packet(&[], PacketDirection::Clientbound);
    assert_eq!(
        empty,
        DecodedPacket { packet_id: None, packet_name: None, fields: vec![], partial_errors: vec![] }
    );
}

#[test]
fn field_errors_end_up_as_markers() {
    let parser = load(SCHEMA);
    let decoded = parser.decode_packet(&[0x09, 0x02, b'o', b'k', 0x07], PacketDirection::Serverbound);
    assert_eq!(decoded.packet_name, Some("packet_chat".to_string()));
    assert_eq!(
        decoded.fields,
        vec![
            ("message".to_string(), Value::Str("ok".to_string())),
            ("extra".to_string(), Value::Str("[decode_error: unknown type]".to_string())),
        ]
    );
    assert_eq!(decoded.partial_errors, vec![("extra".to_string(), DecodeError::UnknownType)]);
    let short = parser.decode_packet(&[0x09, 0x05, b'o'], PacketDirection::Serverbound);
    assert_eq!(
        short.fields,
        vec![(
            "message".to_string(),
            Value::Str("[decode_error: length exceeds remaining bytes]".to_string())
        )]
    );
    assert_eq!(short.partial_errors, vec![("message".to_string(), DecodeError::LengthExceeds)]);
}

#[test]
fn decode_packet_accepts_any_bytes() {
    let parser = load(SCHEMA);
    for id in [0x01u8, 0x09, 0x13, 0x7f, 0x80, 0xff] {
        for len in 0..12usize {
            for fill in [0x00u8, 0x7f, 0x80, 0xff] {
                let mut data = vec![id];
                data.extend(std::iter::repeat(fill).take(len));
                let a = parser.decode_packet(&data, PacketDirection::Clientbound);
                let b = parser.decode_packet(&data, PacketDirection::Serverbound);
                assert!(a.partial_errors.len() <= a.fields.len() + 8);
                assert!(b.partial_errors.len() <= b.fields.len() + 8);
            }
        }
    }
}

#[test]
fn bound_names() {
    assert_eq!(PacketBound::from_str("client"), PacketBound::Client);
    assert_eq!(PacketBound::from_str("server"), PacketBound::Server);
    assert_eq!(PacketBound::from_str("both"), PacketBound::Both);
    assert_eq!(PacketBound::from_str("CLIENT"), PacketBound::Client);
    assert_eq!(PacketBound::from_str("Server"), PacketBound::Server);
    assert_eq!(PacketBound::from_str("sideways"), PacketBound::Both);
    assert_eq!(PacketBound::from_str(""), PacketBound::Both);
    assert!(PacketBound::Both.allows(PacketDirection::Clientbound));
    assert!(PacketBound::Client.allows(PacketDirection::Clientbound));
    assert!(!PacketBound::Client.allows(PacketDirection::Serverbound));
    assert!(PacketBound::Server.allows(PacketDirection::Serverbound));
    assert!(!PacketBound::Server.allows(PacketDirection::Clientbound));
}

#[test]
fn packet_ids_from_text() {
    assert_eq!(parse_packet_id("0x01"), Some(1));
    assert_eq!(parse_packet_id("0xFf"), Some(255));
    assert_eq!(parse_packet_id("1f"), Some(31));
    assert_eq!(parse_packet_id("0x0x10"), Some(16));
    assert_eq!(parse_packet_id("+a"), Some(10));
    assert_eq!(parse_packet_id("ffffffff"), Some(u32::MAX));
    assert_eq!(parse_packet_id("0000000000000001"), Some(1));
    assert_eq!(parse_packet_id("100000000"), None);
    assert_eq!(parse_packet_id("fffffffffffffffffffffffff"), None);
    assert_eq!(parse_packet_id(""), None);
    assert_eq!(parse_packet_id("0x"), None);
    assert_eq!(parse_packet_id("+"), None);
    assert_eq!(parse_packet_id("-1"), None);
    assert_eq!(parse_packet_id("12g"), None);
    assert_eq!(parse_packet_id("0X10"), None);
    for (text, radix_text) in [("0x01", "01"), ("7fffffff", "7fffffff"), ("+ff", "+ff"), ("zz", "zz")] {
        assert_eq!(parse_packet_id(text), u32::from_str_radix(radix_text, 16).ok());
    }
}

#[test]
fn invalid_packet_id_fails_the_load() {
    let r = ProtocolParser::from_document(&doc("packet_x:\n  \"!id\": \"zz\"\n  a: u8\n"), "v");
    assert_eq!(r, Err(SchemaError::InvalidPacketId));
}

#[test]
fn packet_without_id_is_left_out() {
    let parser = load("packet_x:\n  a: u8\npacket_y:\n  \"!id\": true\n  a: u8\npacket_z: 5\n");
    assert_eq!(parser.packet_count(), 0);
}

#[test]
fn wide_packet_id_is_cut_to_32_bits() {
    let parser = load("packet_x:\n  \"!id\": 4294967298\n  a: u8\n");
    assert!(parser.get_packet_info(2).is_some());
}

#[test]
fn cyclic_alias_fails_the_load() {
    let r = ProtocolParser::from_document(&doc("a: b\nb: c\nc: a\n"), "v");
    assert_eq!(r, Err(SchemaError::CyclicAlias));
    let r = ProtocolParser::from_document(&doc("a: \"a[]varint\"\n"), "v");
    assert_eq!(r, Err(SchemaError::CyclicAlias));
    let r = ProtocolParser::from_document(&doc("a: [\"encapsulated\", a]\n"), "v");
    assert_eq!(r, Err(SchemaError::CyclicAlias));
    let ok = ProtocolParser::from_document(&doc("a: b\nb: u8\nc: nothing\n"), "v");
    assert!(ok.is_ok());
}

#[test]
fn document_that_is_no_mapping_defines_nothing() {
    let parser = ProtocolParser::from_document(&SchemaNode::Str("x".to_string()), "v").unwrap();
    assert_eq!(parser.packet_count(), 0);
    assert_eq!(parser.containers.len(), 0);
    assert_eq!(parser.version(), "v");
}

#[test]
fn top_level_entries_are_classified() {
    let d = doc(SCHEMA);
    let kinds: Vec<EntryKind> = entries(&d).iter().map(|(k, v)| classify(k, v)).collect();
    assert_eq!(
        kinds,
        vec![
            EntryKind::Ignored,
            EntryKind::Alias,
            EntryKind::Alias,
            EntryKind::Alias,
            EntryKind::Alias,
            EntryKind::Alias,
            EntryKind::Alias,
            EntryKind::Alias,
            EntryKind::Container,
            EntryKind::Packet,
            EntryKind::Packet,
            EntryKind::Packet,
        ]
    );
    assert_eq!(classify(&SchemaNode::UInt(1), &SchemaNode::Null), EntryKind::Ignored);
    assert_eq!(
        classify(&SchemaNode::Str("packet_x".to_string()), &SchemaNode::Str("u8".to_string())),
        EntryKind::Ignored
    );
    // A mapping with nothing but metadata is no container.
    assert_eq!(
        classify(
            &SchemaNode::Str("x".to_string()),
            &SchemaNode::Mapping(vec![(SchemaNode::Str("!a".to_string()), SchemaNode::Null)])
        ),
        EntryKind::Alias
    );
}

#[test]
fn type_expressions_resolve() {
    let d = doc(SCHEMA);
    let r = TypeResolver::new(entries(&d));
    let ok = |t: &str| r.parse_type_string(t);
    assert_eq!(ok("u8"), Ok(ProtoType::U8));
    assert_eq!(ok("varint"), Ok(ProtoType::VarInt32));
    assert_eq!(ok("varint32"), Ok(ProtoType::VarInt32));
    // A keyword is tried before an alias of the same name.
    assert_eq!(ok("varint64"), Ok(ProtoType::VarInt64));
    assert_eq!(ok("string"), Ok(ProtoType::String(CountType::VarInt)));
    assert_eq!(ok("f32"), Ok(ProtoType::F32));
    assert_eq!(ok("f64"), Ok(ProtoType::F64));
    assert_eq!(ok("LittleString"), Ok(ProtoType::LittleString));
    assert_eq!(ok("ShortString"), Ok(ProtoType::ShortString));
    assert_eq!(ok("LatinString"), Ok(ProtoType::LatinString));
    assert_eq!(ok("uuid"), Ok(ProtoType::UUID));
    assert_eq!(ok("vec2f"), Ok(ProtoType::Vec2F));
    assert_eq!(ok("vec3f"), Ok(ProtoType::Vec3F));
    assert_eq!(ok("restBuffer"), Ok(ProtoType::RestBuffer));
    assert_eq!(ok("native:nbt"), Ok(ProtoType::Native("nbt".to_string())));
    assert_eq!(ok("native:"), Ok(ProtoType::Native("".to_string())));
    assert_eq!(ok("ByteArray"), Ok(ProtoType::Buffer(CountType::VarInt)));
    assert_eq!(ok("SmallArray"), Ok(ProtoType::Buffer(CountType::VarInt)));
    assert_eq!(ok("Wrapped"), Ok(ProtoType::Encapsulated(Box::new(ProtoType::U32))));
    assert_eq!(ok("Name"), Ok(ProtoType::String(CountType::VarInt)));
    assert_eq!(ok("vec3i"), Ok(ProtoType::Container("vec3i".to_string())));
    assert_eq!(
        ok("i32[]li16"),
        Ok(ProtoType::Array(Box::new(ProtoType::I32), CountType::LI16))
    );
    assert_eq!(
        ok("vec3i[]whatever"),
        Ok(ProtoType::Array(
            Box::new(ProtoType::Container("vec3i".to_string())),
            CountType::VarInt
        ))
    );
    assert_eq!(
        ok("u8[]zigzag32"),
        Ok(ProtoType::Array(Box::new(ProtoType::U8), CountType::ZigZag32))
    );
    // The expression is split at the first pair of brackets.
    assert_eq!(
        ok("u8[]lu32[]varint"),
        Ok(ProtoType::Array(Box::new(ProtoType::U8), CountType::VarInt))
    );
    assert_eq!(ok("[]varint"), Err(DecodeError::UnknownType));
    assert_eq!(ok("nothing"), Err(DecodeError::UnknownType));
    assert_eq!(ok("U8"), Err(DecodeError::UnknownType));
    assert_eq!(ok(""), Err(DecodeError::UnknownType));
    assert_eq!(ok("packet_ping"), Err(DecodeError::UnknownType));
}

#[test]
fn sequence_expressions_resolve() {
    let d = doc(SCHEMA);
    let r = TypeResolver::new(entries(&d));
    let parse = |text: &str| r.parse_type(&doc(text));
    assert_eq!(parse("[buffer, {countType: lu16}]"), Ok(ProtoType::Buffer(CountType::LU16)));
    assert_eq!(parse("[Buffer, {countType: li32}]"), Ok(ProtoType::Buffer(CountType::LI32)));
    assert_eq!(parse("[pstring, {countType: li64}]"), Ok(ProtoType::String(CountType::LI64)));
    assert_eq!(parse("[pstring, {other: 1}]"), Ok(ProtoType::String(CountType::VarInt)));
    assert_eq!(parse("[pstring, 5]"), Ok(ProtoType::String(CountType::VarInt)));
    assert_eq!(parse("[pstring, {countType: nope}]"), Err(DecodeError::UnknownType));
    assert_eq!(
        parse("[encapsulated, [encapsulated, Name]]"),
        Ok(ProtoType::Encapsulated(Box::new(ProtoType::Encapsulated(Box::new(
            ProtoType::String(CountType::VarInt)
        )))))
    );
    assert_eq!(parse("[encapsulated]"), Err(DecodeError::UnknownType));
    assert_eq!(parse("[array, u8]"), Err(DecodeError::UnknownType));
    assert_eq!(parse("[]"), Err(DecodeError::UnknownType));
    assert_eq!(parse("[5, u8]"), Err(DecodeError::UnknownType));
    assert_eq!(parse("5"), Err(DecodeError::UnknownType));
    assert_eq!(parse("{a: u8}"), Err(DecodeError::UnknownType));
    assert_eq!(parse("~"), Err(DecodeError::UnknownType));
}

#[test]
fn cyclic_aliases_are_found_when_resolving() {
    let d = doc("a: b\nb: \"c[]varint\"\nc: [encapsulated, a]\nd: a\ne: u8\nf: e\n");
    let r = TypeResolver::new(entries(&d));
    assert_eq!(r.parse_type_string("a"), Err(DecodeError::CyclicAlias));
    assert_eq!(r.parse_type_string("d"), Err(DecodeError::CyclicAlias));
    assert_eq!(r.parse_type_string("f"), Ok(ProtoType::U8));
    let mut visited = vec!["f".to_string()];
    assert_eq!(r.resolve_text("f", &mut visited), Err(DecodeError::CyclicAlias));
    assert_eq!(visited, vec!["f".to_string()]);
}

#[test]
fn count_type_options() {
    assert_eq!(parse_count_type(&doc("{countType: varint}")), Ok(CountType::VarInt));
    assert_eq!(parse_count_type(&doc("{countType: zigzag32}")), Ok(CountType::ZigZag32));
    assert_eq!(parse_count_type(&doc("{countType: li16}")), Ok(CountType::LI16));
    assert_eq!(parse_count_type(&doc("{countType: li32}")), Ok(CountType::LI32));
    assert_eq!(parse_count_type(&doc("{countType: li64}")), Ok(CountType::LI64));
    assert_eq!(parse_count_type(&doc("{countType: lu16}")), Ok(CountType::LU16));
    assert_eq!(parse_count_type(&doc("{countType: lu32}")), Ok(CountType::LU32));
    assert_eq!(parse_count_type(&doc("{countType: u8}")), Err(DecodeError::UnknownType));
    assert_eq!(parse_count_type(&doc("{countType: 5}")), Ok(CountType::VarInt));
    assert_eq!(parse_count_type(&doc("{}")), Ok(CountType::VarInt));
    assert_eq!(parse_count_type(&doc("plain")), Ok(CountType::VarInt));
}

#[test]
fn protocol_document_path() {
    assert_eq!(ProtocolParser::protocol_file("1.21.111"), "data/protocol/proto-1.21.111.yml");
}

#[test]
fn failures_inside_containers_are_reported_with_the_packet() {
    let parser = load(SCHEMA);
    // The position ends after its first field; the packet goes on.
    let decoded = parser.decode_packet(&[19, 0x03], PacketDirection::Clientbound);
    assert_eq!(decoded.packet_name, Some("packet_move".to_string()));
    assert_eq!(
        decoded.fields,
        vec![
            (
                "position".to_string(),
                Value::Object(vec![
                    ("x".to_string(), Value::Int(-2)),
                    ("y".to_string(), Value::Str("[decode_error: truncated read]".to_string())),
                ])
            ),
            ("name".to_string(), Value::Str("[decode_error: truncated read]".to_string())),
        ]
    );
    assert_eq!(
        decoded.partial_errors,
        vec![
            ("y".to_string(), DecodeError::TruncatedRead),
            ("name".to_string(), DecodeError::TruncatedRead),
        ]
    );
}

#[test]
fn a_container_inside_itself_ends_at_the_nesting_limit() {
    let parser = load("loop:\n  again: loop\npacket_x:\n  \"!id\": 1\n  x: loop\n  y: u8\n");
    let decoded = parser.decode_packet(&[1, 7], PacketDirection::Clientbound);
    assert_eq!(
        decoded.fields,
        vec![
            (
                "x".to_string(),
                Value::Object(vec![(
                    "again".to_string(),
                    Value::Str("[decode_error: nesting limit]".to_string())
                )])
            ),
            ("y".to_string(), Value::Int(7)),
        ]
    );
    assert_eq!(decoded.partial_errors, vec![("again".to_string(), DecodeError::NestingLimit)]);
}
