use lazypacket::decoder::{
    decode_elements, decode_fields, decode_value, read_count, read_counted, BinaryDecoder,
    DecodedFields, DecodedValue,
};

const MAX_NESTING: usize = 8;
use lazypacket::types::{ContainerDef, CountType, FieldDef, FieldType, ProtoType};
use lazypacket::value::Value;
use lazypacket::wire::{zigzag32, zigzag64, Cursor, DecodeError};

fn decode(ty: &ProtoType, bytes: &[u8]) -> (Result<Value, DecodeError>, usize) {
    let mut cur = Cursor::new(bytes);
    let r = decode_value(&[], ty, &mut cur, MAX_NESTING);
    if let Ok(d) = &r {
        assert_eq!(d.failures, vec![]);
    }
    (r.map(|d| d.value), cur.position())
}

fn field(name: &str, ty: ProtoType) -> FieldDef {
    FieldDef { name: name.to_string(), ty: FieldType::Known(ty) }
}

fn s(text: &str) -> Value {
    Value::Str(text.to_string())
}

/// The varint encoding of a 32-bit value.
fn varint(mut v: u32) -> Vec<u8> {
    let mut out = Vec::new();
    loop {
        let b = (v & 0x7f) as u8;
        v >>= 7;
        if v == 0 {
            out.push(b);
            return out;
        }
        out.push(b | 0x80);
    }
}

#[test]
fn fixed_width_integers_are_little_endian() {
    assert_eq!(decode(&ProtoType::U8, &[0x2a]), (Ok(Value::Int(42)), 1));
    assert_eq!(decode(&ProtoType::I8, &[0xff]), (Ok(Value::Int(-1)), 1));
    assert_eq!(decode(&ProtoType::U16, &[0x34, 0x12]), (Ok(Value::Int(0x1234)), 2));
    assert_eq!(decode(&ProtoType::I16, &[0x00, 0x80]), (Ok(Value::Int(-32768)), 2));
    assert_eq!(decode(&ProtoType::LU16, &[0xff, 0xff]), (Ok(Value::Int(65535)), 2));
    assert_eq!(decode(&ProtoType::LI16, &[0xfe, 0xff]), (Ok(Value::Int(-2)), 2));
    assert_eq!(decode(&ProtoType::U32, &[1, 0, 0, 0]), (Ok(Value::Int(1)), 4));
    assert_eq!(
        decode(&ProtoType::U32, &[0xff, 0xff, 0xff, 0xff]),
        (Ok(Value::Int(4294967295)), 4)
    );
    assert_eq!(decode(&ProtoType::I32, &[0xff, 0xff, 0xff, 0xff]), (Ok(Value::Int(-1)), 4));
    assert_eq!(decode(&ProtoType::LI32, &[0, 0, 0, 0x80]), (Ok(Value::Int(-2147483648)), 4));
    assert_eq!(decode(&ProtoType::LU32, &[0x78, 0x56, 0x34, 0x12]), (Ok(Value::Int(0x12345678)), 4));
    assert_eq!(
        decode(&ProtoType::I64, &[0xff; 8]),
        (Ok(Value::Int(-1)), 8)
    );
    assert_eq!(
        decode(&ProtoType::LI64, &[0, 0, 0, 0, 0, 0, 0, 0x80]),
        (Ok(Value::Int(i64::MIN)), 8)
    );
}

#[test]
fn unsigned_64_bit_above_i64_max_is_decimal_text() {
    let max = i64::MAX as u64;
    assert_eq!(decode(&ProtoType::U64, &max.to_le_bytes()), (Ok(Value::Int(i64::MAX)), 8));
    assert_eq!(
        decode(&ProtoType::U64, &(max + 1).to_le_bytes()),
        (Ok(s("9223372036854775808")), 8)
    );
    assert_eq!(
        decode(&ProtoType::LU64, &u64::MAX.to_le_bytes()),
        (Ok(s("18446744073709551615")), 8)
    );
    assert_eq!(decode(&ProtoType::LU64, &7u64.to_le_bytes()), (Ok(Value::Int(7)), 8));
}

#[test]
fn truncated_fixed_width_read_fails_and_consumes_nothing() {
    assert_eq!(decode(&ProtoType::U32, &[1, 2, 3]), (Err(DecodeError::TruncatedRead), 0));
    assert_eq!(decode(&ProtoType::U8, &[]), (Err(DecodeError::TruncatedRead), 0));
    assert_eq!(decode(&ProtoType::F64, &[0; 7]), (Err(DecodeError::TruncatedRead), 0));
    assert_eq!(decode(&ProtoType::UUID, &[0; 15]), (Err(DecodeError::TruncatedRead), 0));
    assert_eq!(decode(&ProtoType::Vec3F, &[0; 11]), (Err(DecodeError::TruncatedRead), 0));
}

#[test]
fn booleans_are_zero_or_not() {
    assert_eq!(decode(&ProtoType::Bool, &[0]), (Ok(Value::Bool(false)), 1));
    assert_eq!(decode(&ProtoType::Bool, &[1]), (Ok(Value::Bool(true)), 1));
    assert_eq!(decode(&ProtoType::Bool, &[0x80]), (Ok(Value::Bool(true)), 1));
}

#[test]
fn floats_keep_their_bits() {
    let one = 1.0f32.to_bits();
    assert_eq!(decode(&ProtoType::F32, &one.to_le_bytes()), (Ok(Value::F32(one)), 4));
    let pi = std::f64::consts::PI.to_bits();
    assert_eq!(decode(&ProtoType::F64, &pi.to_le_bytes()), (Ok(Value::F64(pi)), 8));
    let neg_zero = (-0.0f32).to_bits();
    assert_eq!(decode(&ProtoType::F32, &neg_zero.to_le_bytes()), (Ok(Value::F32(neg_zero)), 4));
}

#[test]
fn non_finite_floats_become_zero() {
    assert_eq!(
        decode(&ProtoType::F32, &f32::NAN.to_bits().to_le_bytes()),
        (Ok(Value::Int(0)), 4)
    );
    assert_eq!(
        decode(&ProtoType::F32, &f32::INFINITY.to_bits().to_le_bytes()),
        (Ok(Value::Int(0)), 4)
    );
    assert_eq!(
        decode(&ProtoType::F64, &f64::NEG_INFINITY.to_bits().to_le_bytes()),
        (Ok(Value::Int(0)), 8)
    );
    assert_eq!(
        decode(&ProtoType::F32, &f32::MAX.to_bits().to_le_bytes()),
        (Ok(Value::F32(f32::MAX.to_bits())), 4)
    );
}

#[test]
fn varint32_reads_up_to_five_bytes() {
    assert_eq!(decode(&ProtoType::VarInt32, &[0x00]), (Ok(Value::Int(0)), 1));
    assert_eq!(decode(&ProtoType::VarInt32, &[0x7f]), (Ok(Value::Int(127)), 1));
    assert_eq!(decode(&ProtoType::VarInt32, &[0x81, 0x01]), (Ok(Value::Int(129)), 2));
    assert_eq!(decode(&ProtoType::VarInt32, &[0xac, 0x02, 0xff]), (Ok(Value::Int(300)), 2));
    assert_eq!(
        decode(&ProtoType::VarInt32, &[0xff, 0xff, 0xff, 0xff, 0x0f]),
        (Ok(Value::Int(4294967295)), 5)
    );
    // The bits of the fifth byte beyond 32 are dropped.
    assert_eq!(
        decode(&ProtoType::VarInt32, &[0x80, 0x80, 0x80, 0x80, 0x7f]),
        (Ok(Value::Int(0xf000_0000)), 5)
    );
}

#[test]
fn varint_overflow_and_truncation() {
    assert_eq!(
        decode(&ProtoType::VarInt32, &[0x80, 0x80, 0x80, 0x80, 0x80, 0x01]),
        (Err(DecodeError::VarintOverflow), 0)
    );
    assert_eq!(decode(&ProtoType::VarInt32, &[0x80, 0x80]), (Err(DecodeError::TruncatedRead), 0));
    assert_eq!(decode(&ProtoType::VarInt32, &[]), (Err(DecodeError::TruncatedRead), 0));
    assert_eq!(decode(&ProtoType::VarInt64, &[0x80; 10]), (Err(DecodeError::VarintOverflow), 0));
    assert_eq!(decode(&ProtoType::VarInt64, &[0x80; 9]), (Err(DecodeError::TruncatedRead), 0));
}

#[test]
fn varint64_reads_up_to_ten_bytes() {
    assert_eq!(
        decode(&ProtoType::VarInt64, &[0xff, 0xff, 0xff, 0xff, 0xff, 0xff, 0xff, 0xff, 0x7f]),
        (Ok(Value::Int(i64::MAX)), 9)
    );
    assert_eq!(
        decode(&ProtoType::VarInt64, &[0xff, 0xff, 0xff, 0xff, 0xff, 0xff, 0xff, 0xff, 0xff, 0x01]),
        (Ok(s("18446744073709551615")), 10)
    );
    assert_eq!(
        decode(&ProtoType::VarInt64, &[0x80, 0x80, 0x80, 0x80, 0x80, 0x80, 0x80, 0x80, 0x80, 0x01]),
        (Ok(s("9223372036854775808")), 10)
    );
}

#[test]
fn zigzag_round_trip() {
    for input in [0i32, -1, 1, -2, 2, 2147483647, -2147483648] {
        let encoded = ((input << 1) ^ (input >> 31)) as u32;
        let bytes = varint(encoded);
        assert_eq!(
            decode(&ProtoType::ZigZag32, &bytes),
            (Ok(Value::Int(input as i64)), bytes.len()),
            "zigzag32 of {}",
            input
        );
        assert_eq!(zigzag32(encoded), input);
    }
}

#[test]
fn zigzag_matches_the_bit_formula() {
    for n in [0u32, 1, 2, 3, 4, 0x7fff_ffff, 0x8000_0000, 0xffff_fffe, 0xffff_ffff] {
        assert_eq!(zigzag32(n), ((n >> 1) as i32) ^ (-((n & 1) as i32)));
    }
    for n in [0u64, 1, 2, 3, u64::MAX - 1, u64::MAX, 1 << 63] {
        assert_eq!(zigzag64(n), ((n >> 1) as i64) ^ (-((n & 1) as i64)));
    }
}

#[test]
fn zigzag64_values() {
    assert_eq!(decode(&ProtoType::ZigZag64, &[0x01]), (Ok(Value::Int(-1)), 1));
    assert_eq!(decode(&ProtoType::ZigZag64, &[0x02]), (Ok(Value::Int(1)), 1));
    assert_eq!(
        decode(&ProtoType::ZigZag64, &[0xff, 0xff, 0xff, 0xff, 0xff, 0xff, 0xff, 0xff, 0xff, 0x01]),
        (Ok(Value::Int(i64::MIN)), 10)
    );
}

#[test]
fn length_prefixed_string() {
    assert_eq!(
        decode(&ProtoType::String(CountType::VarInt), &[0x03, 0x66, 0x6f, 0x6f]),
        (Ok(s("foo")), 4)
    );
    let fields = vec![field("name", ProtoType::String(CountType::VarInt))];
    let mut cur = Cursor::new(&[0x03, 0x66, 0x6f, 0x6f]);
    let rec = decode_fields(&[], &fields, &mut cur, MAX_NESTING);
    assert_eq!(
        rec,
        DecodedFields { fields: vec![("name".to_string(), s("foo"))], failures: vec![] }
    );
}

#[test]
fn string_variants_differ_in_their_prefix() {
    assert_eq!(decode(&ProtoType::LittleString, &[2, 0, 0, 0, b'h', b'i']), (Ok(s("hi")), 6));
    assert_eq!(decode(&ProtoType::ShortString, &[2, 0, b'h', b'i', 9]), (Ok(s("hi")), 4));
    assert_eq!(decode(&ProtoType::LatinString, &[2, 0xe9, 0x41]), (Ok(s("\u{e9}A")), 3));
    assert_eq!(
        decode(&ProtoType::String(CountType::VarInt), &[2, 0xc3, 0xa9]),
        (Ok(s("\u{e9}")), 3)
    );
    assert_eq!(decode(&ProtoType::String(CountType::VarInt), &[0]), (Ok(s("")), 1));
}

#[test]
fn invalid_utf8_is_replaced() {
    assert_eq!(
        decode(&ProtoType::String(CountType::VarInt), &[3, b'a', 0xff, b'b']),
        (Ok(s("a\u{fffd}b")), 4)
    );
}

#[test]
fn length_beyond_the_remaining_bytes_fails() {
    assert_eq!(
        decode(&ProtoType::String(CountType::VarInt), &[0x05, b'a', b'b']),
        (Err(DecodeError::LengthExceeds), 0)
    );
    assert_eq!(
        decode(&ProtoType::Buffer(CountType::LU16), &[0x03, 0x00, 1, 2]),
        (Err(DecodeError::LengthExceeds), 0)
    );
    // A negative short length is a huge count.
    assert_eq!(
        decode(&ProtoType::ShortString, &[0xff, 0xff, b'a']),
        (Err(DecodeError::LengthExceeds), 0)
    );
}

#[test]
fn counts_are_32_bit_magnitudes() {
    let count = |ct: CountType, bytes: &[u8]| {
        let mut cur = Cursor::new(bytes);
        (read_count(&mut cur, &ct), cur.position())
    };
    assert_eq!(count(CountType::VarInt, &[0x81, 0x01]), (Ok(129), 2));
    assert_eq!(count(CountType::ZigZag32, &[0x04]), (Ok(2), 1));
    assert_eq!(count(CountType::ZigZag32, &[0x01]), (Ok(0xffff_ffff), 1));
    assert_eq!(count(CountType::LI16, &[0xff, 0xff]), (Ok(0xffff_ffff), 2));
    assert_eq!(count(CountType::LI16, &[0x02, 0x00]), (Ok(2), 2));
    assert_eq!(count(CountType::LU16, &[0xff, 0xff]), (Ok(0xffff), 2));
    assert_eq!(count(CountType::LI32, &[0xfe, 0xff, 0xff, 0xff]), (Ok(0xffff_fffe), 4));
    assert_eq!(count(CountType::LU32, &[0xfe, 0xff, 0xff, 0xff]), (Ok(0xffff_fffe), 4));
    assert_eq!(
        count(CountType::LI64, &[0x01, 0, 0, 0, 0xff, 0xff, 0xff, 0xff]),
        (Ok(1), 8)
    );
    assert_eq!(count(CountType::Fixed(7), &[]), (Ok(7), 0));
    assert_eq!(count(CountType::LI32, &[1, 2, 3]), (Err(DecodeError::TruncatedRead), 0));
}

#[test]
fn counted_bytes_are_the_next_bytes() {
    let data = [0x02, 0xaa, 0xbb, 0xcc];
    let mut cur = Cursor::new(&data);
    assert_eq!(read_counted(&mut cur, &CountType::VarInt), Ok(&data[1..3]));
    assert_eq!(cur.position(), 3);
    assert_eq!(cur.remaining(), 1);
    let mut cur = Cursor::new(&data);
    assert_eq!(read_counted(&mut cur, &CountType::Fixed(4)), Ok(&data[..]));
    let mut cur = Cursor::new(&data);
    assert_eq!(read_counted(&mut cur, &CountType::Fixed(5)), Err(DecodeError::LengthExceeds));
    assert_eq!(cur.position(), 0);
}

#[test]
fn buffers_render_as_hex() {
    assert_eq!(
        decode(&ProtoType::Buffer(CountType::VarInt), &[0x03, 0xde, 0xad, 0x0f, 0x99]),
        (Ok(s("0xdead0f")), 4)
    );
    assert_eq!(decode(&ProtoType::Buffer(CountType::VarInt), &[0x00]), (Ok(s("0x")), 1));
    assert_eq!(decode(&ProtoType::RestBuffer, &[0x01, 0xab]), (Ok(s("0x01ab")), 2));
    assert_eq!(decode(&ProtoType::RestBuffer, &[]), (Ok(s("0x")), 0));
    assert_eq!(
        decode(&ProtoType::Native("nbt".to_string()), &[0x0a, 0x00]),
        (Ok(s("[native: 0x0a00]")), 2)
    );
}

#[test]
fn native_consumes_all_that_remains() {
    let bytes = vec![0x5a; 2000];
    let (r, pos) = decode(&ProtoType::Native("nbt".to_string()), &bytes);
    assert_eq!(pos, 2000);
    match r {
        Ok(Value::Str(text)) => assert_eq!(text.len(), "[native: 0x]".len() + 4000),
        other => panic!("unexpected {:?}", other),
    }
}

#[test]
fn uuid_renders_in_canonical_form() {
    let bytes: Vec<u8> = (0u8..16).map(|i| i * 17).collect();
    assert_eq!(
        decode(&ProtoType::UUID, &bytes),
        (Ok(s("00112233-4455-6677-8899-aabbccddeeff")), 16)
    );
}

#[test]
fn vectors_are_objects_of_components() {
    let mut bytes = Vec::new();
    for f in [1.5f32, -2.0, 0.25] {
        bytes.extend_from_slice(&f.to_bits().to_le_bytes());
    }
    assert_eq!(
        decode(&ProtoType::Vec3F, &bytes),
        (
            Ok(Value::Object(vec![
                ("x".to_string(), Value::F32(1.5f32.to_bits())),
                ("y".to_string(), Value::F32((-2.0f32).to_bits())),
                ("z".to_string(), Value::F32(0.25f32.to_bits())),
            ])),
            12
        )
    );
    assert_eq!(
        decode(&ProtoType::Vec2F, &bytes),
        (
            Ok(Value::Object(vec![
                ("x".to_string(), Value::F32(1.5f32.to_bits())),
                ("y".to_string(), Value::F32((-2.0f32).to_bits())),
            ])),
            8
        )
    );
}

#[test]
fn non_finite_vector_component_is_zero() {
    let mut bytes = Vec::new();
    bytes.extend_from_slice(&f32::NAN.to_bits().to_le_bytes());
    bytes.extend_from_slice(&2.0f32.to_bits().to_le_bytes());
    assert_eq!(
        decode(&ProtoType::Vec2F, &bytes),
        (
            Ok(Value::Object(vec![
                ("x".to_string(), Value::F32(0)),
                ("y".to_string(), Value::F32(2.0f32.to_bits())),
            ])),
            8
        )
    );
}

#[test]
fn arrays_decode_count_then_elements() {
    let ty = ProtoType::Array(Box::new(ProtoType::U16), CountType::VarInt);
    assert_eq!(
        decode(&ty, &[0x02, 0x01, 0x00, 0x02, 0x00, 0xff]),
        (Ok(Value::Array(vec![Value::Int(1), Value::Int(2)])), 5)
    );
    assert_eq!(decode(&ty, &[0x00]), (Ok(Value::Array(vec![])), 1));
    assert_eq!(decode(&ty, &[0x02, 0x01, 0x00, 0x02]), (Err(DecodeError::TruncatedRead), 0));
    let nested = ProtoType::Array(Box::new(ty), CountType::LU16);
    assert_eq!(
        decode(&nested, &[0x02, 0x00, 0x01, 0x07, 0x00, 0x00]),
        (
            Ok(Value::Array(vec![Value::Array(vec![Value::Int(7)]), Value::Array(vec![])])),
            6
        )
    );
}

#[test]
fn elements_are_decoded_one_after_the_other() {
    let data = [1u8, 2, 3, 4];
    let mut cur = Cursor::new(&data);
    assert_eq!(
        decode_elements(&[], &ProtoType::U8, 3, &mut cur, MAX_NESTING),
        Ok((vec![Value::Int(1), Value::Int(2), Value::Int(3)], vec![]))
    );
    assert_eq!(cur.position(), 3);
    let mut cur = Cursor::new(&data);
    assert_eq!(
        decode_elements(&[], &ProtoType::U8, 5, &mut cur, MAX_NESTING),
        Err(DecodeError::TruncatedRead)
    );
    assert_eq!(cur.position(), 0);
}

#[test]
fn encapsulated_length_containment() {
    let ty = ProtoType::Encapsulated(Box::new(ProtoType::U32));
    assert_eq!(decode(&ty, &[0x04, 0x01, 0x00, 0x00, 0x00]), (Ok(Value::Int(1)), 5));
    let fields = vec![field("inner", ty)];
    let mut cur = Cursor::new(&[0x04, 0x01, 0x00, 0x00, 0x00]);
    let rec = decode_fields(&[], &fields, &mut cur, MAX_NESTING);
    assert_eq!(rec.fields, vec![("inner".to_string(), Value::Int(1))]);
    assert_eq!(rec.failures, vec![]);
    assert_eq!(cur.position(), 5);
}

#[test]
fn encapsulated_skips_what_the_inner_value_leaves() {
    let ty = ProtoType::Encapsulated(Box::new(ProtoType::U8));
    let fields = vec![field("inner", ty), field("after", ProtoType::U8)];
    let mut cur = Cursor::new(&[0x03, 0x2a, 0xee, 0xee, 0x07]);
    let rec = decode_fields(&[], &fields, &mut cur, MAX_NESTING);
    assert_eq!(
        rec.fields,
        vec![("inner".to_string(), Value::Int(42)), ("after".to_string(), Value::Int(7))]
    );
    assert_eq!(cur.position(), 5);
}

#[test]
fn encapsulated_inner_cannot_read_past_its_length() {
    let ty = ProtoType::Encapsulated(Box::new(ProtoType::U32));
    assert_eq!(
        decode(&ty, &[0x02, 0x01, 0x00, 0x00, 0x00]),
        (Err(DecodeError::TruncatedRead), 0)
    );
    assert_eq!(decode(&ty, &[0x09, 0x01, 0x00]), (Err(DecodeError::LengthExceeds), 0));
    let rest = ProtoType::Encapsulated(Box::new(ProtoType::RestBuffer));
    assert_eq!(decode(&rest, &[0x02, 0xaa, 0xbb, 0xcc]), (Ok(s("0xaabb")), 3));
}

fn position_container() -> Vec<ContainerDef> {
    vec![
        ContainerDef {
            name: "pos".to_string(),
            fields: vec![field("x", ProtoType::I8), field("y", ProtoType::I8)],
        },
        ContainerDef {
            name: "pair".to_string(),
            fields: vec![
                field("a", ProtoType::Container("pos".to_string())),
                field("b", ProtoType::Container("pos".to_string())),
            ],
        },
        ContainerDef {
            name: "forever".to_string(),
            fields: vec![field("again", ProtoType::Container("forever".to_string()))],
        },
    ]
}

fn pos(x: i64, y: i64) -> Value {
    Value::Object(vec![("x".to_string(), Value::Int(x)), ("y".to_string(), Value::Int(y))])
}

#[test]
fn containers_decode_their_fields_in_order() {
    let cs = position_container();
    let mut cur = Cursor::new(&[1, 0xff, 3, 4, 9]);
    let v = decode_value(&cs, &ProtoType::Container("pair".to_string()), &mut cur, MAX_NESTING);
    assert_eq!(
        v,
        Ok(DecodedValue {
            value: Value::Object(vec![
                ("a".to_string(), pos(1, -1)),
                ("b".to_string(), pos(3, 4))
            ]),
            failures: vec![],
        })
    );
    assert_eq!(cur.position(), 4);
}

#[test]
fn container_is_decoded_as_far_as_its_fields_decode() {
    let cs = position_container();
    let mut cur = Cursor::new(&[1, 2, 3]);
    let v = decode_value(&cs, &ProtoType::Container("pair".to_string()), &mut cur, MAX_NESTING);
    assert_eq!(
        v,
        Ok(DecodedValue {
            value: Value::Object(vec![
                ("a".to_string(), pos(1, 2)),
                (
                    "b".to_string(),
                    Value::Object(vec![
                        ("x".to_string(), Value::Int(3)),
                        ("y".to_string(), s("[decode_error: truncated read]")),
                    ])
                ),
            ]),
            failures: vec![("y".to_string(), DecodeError::TruncatedRead)],
        })
    );
    assert_eq!(cur.position(), 3);
}

#[test]
fn record_goes_on_after_a_container_that_failed_inside() {
    let cs = position_container();
    let wide = ContainerDef {
        name: "wide".to_string(),
        fields: vec![field("n", ProtoType::U8), field("w", ProtoType::U32)],
    };
    let mut cs2 = cs;
    cs2.push(wide);
    let fields = vec![
        field("first", ProtoType::Encapsulated(Box::new(ProtoType::Container("wide".to_string())))),
        field("second", ProtoType::Container("wide".to_string())),
        field("third", ProtoType::U8),
    ];
    // The encapsulated container has three bytes and fails inside; the
    // record goes on behind those bytes. The second container fails inside
    // as well, and the third field then fails at the top.
    let mut cur = Cursor::new(&[0x03, 0x07, 0x01, 0x02, 0x09, 0x01, 0x02]);
    let rec = decode_fields(&cs2, &fields, &mut cur, MAX_NESTING);
    assert_eq!(
        rec.fields,
        vec![
            (
                "first".to_string(),
                Value::Object(vec![
                    ("n".to_string(), Value::Int(7)),
                    ("w".to_string(), s("[decode_error: truncated read]")),
                ])
            ),
            (
                "second".to_string(),
                Value::Object(vec![
                    ("n".to_string(), Value::Int(9)),
                    ("w".to_string(), s("[decode_error: truncated read]")),
                ])
            ),
            ("third".to_string(), Value::Int(1)),
        ]
    );
    assert_eq!(
        rec.failures,
        vec![
            ("w".to_string(), DecodeError::TruncatedRead),
            ("w".to_string(), DecodeError::TruncatedRead),
        ]
    );
    assert_eq!(cur.position(), 6);
}

#[test]
fn array_of_containers_collects_failures() {
    let cs = position_container();
    let ty = ProtoType::Array(Box::new(ProtoType::Container("pos".to_string())), CountType::VarInt);
    let mut cur = Cursor::new(&[0x02, 1, 2, 3]);
    let v = decode_value(&cs, &ty, &mut cur, MAX_NESTING).unwrap();
    assert_eq!(
        v.value,
        Value::Array(vec![
            pos(1, 2),
            Value::Object(vec![
                ("x".to_string(), Value::Int(3)),
                ("y".to_string(), s("[decode_error: truncated read]")),
            ]),
        ])
    );
    assert_eq!(v.failures, vec![("y".to_string(), DecodeError::TruncatedRead)]);
    assert_eq!(cur.position(), 4);
}

#[test]
fn unknown_container_is_an_unknown_type() {
    let cs = position_container();
    let mut cur = Cursor::new(&[1, 2, 3]);
    let v = decode_value(&cs, &ProtoType::Container("nope".to_string()), &mut cur, MAX_NESTING);
    assert_eq!(v, Err(DecodeError::UnknownType));
}

#[test]
fn endless_nesting_hits_the_limit() {
    let cs = position_container();
    let mut cur = Cursor::new(&[1, 2, 3]);
    let v = decode_value(&cs, &ProtoType::Container("forever".to_string()), &mut cur, cs.len())
        .unwrap();
    assert_eq!(v.failures, vec![("again".to_string(), DecodeError::NestingLimit)]);
    let mut levels = 0;
    let mut at = &v.value;
    while let Value::Object(entries) = at {
        assert_eq!(entries.len(), 1);
        assert_eq!(entries[0].0, "again");
        at = &entries[0].1;
        levels += 1;
    }
    assert_eq!(levels, cs.len());
    assert_eq!(*at, s("[decode_error: nesting limit]"));
    assert_eq!(cur.position(), 0);
    let mut cur = Cursor::new(&[1, 2, 3]);
    let v = decode_value(&cs, &ProtoType::Container("pos".to_string()), &mut cur, 0);
    assert_eq!(v, Err(DecodeError::NestingLimit));
    assert_eq!(cur.position(), 0);
    let mut cur = Cursor::new(&[1, 2, 3]);
    let v = decode_value(&cs, &ProtoType::Container("pos".to_string()), &mut cur, 1);
    assert_eq!(v.map(|d| d.value), Ok(pos(1, 2)));
}

#[test]
fn failed_field_gets_a_marker_and_ends_the_record() {
    let fields = vec![
        field("a", ProtoType::U8),
        field("b", ProtoType::U32),
        field("c", ProtoType::U8),
    ];
    let mut cur = Cursor::new(&[0x01, 0x02, 0x03]);
    let rec = decode_fields(&[], &fields, &mut cur, MAX_NESTING);
    assert_eq!(
        rec.fields,
        vec![
            ("a".to_string(), Value::Int(1)),
            ("b".to_string(), s("[decode_error: truncated read]")),
        ]
    );
    assert_eq!(rec.failures, vec![("b".to_string(), DecodeError::TruncatedRead)]);
    assert_eq!(cur.position(), 1);
}

#[test]
fn unresolved_field_type_fails_the_field() {
    let fields = vec![
        field("a", ProtoType::U8),
        FieldDef { name: "b".to_string(), ty: FieldType::Unresolved(DecodeError::UnknownType) },
        field("c", ProtoType::U8),
    ];
    let mut cur = Cursor::new(&[0x01, 0x02, 0x03]);
    let rec = decode_fields(&[], &fields, &mut cur, MAX_NESTING);
    assert_eq!(
        rec.fields,
        vec![
            ("a".to_string(), Value::Int(1)),
            ("b".to_string(), s("[decode_error: unknown type]")),
        ]
    );
    assert_eq!(rec.failures, vec![("b".to_string(), DecodeError::UnknownType)]);
}

#[test]
fn reserved_field_names_are_passed_over() {
    let fields = vec![
        field("_", ProtoType::U32),
        field("!meta", ProtoType::U32),
        field("a", ProtoType::U8),
        field("", ProtoType::U8),
    ];
    let mut cur = Cursor::new(&[0x01, 0x02, 0x03]);
    let rec = decode_fields(&[], &fields, &mut cur, MAX_NESTING);
    assert_eq!(
        rec.fields,
        vec![("a".to_string(), Value::Int(1)), ("".to_string(), Value::Int(2))]
    );
    assert_eq!(rec.failures, vec![]);
    assert_eq!(cur.position(), 2);
}

#[test]
fn error_messages() {
    assert_eq!(DecodeError::UnknownType.message(), "unknown type");
    assert_eq!(DecodeError::CyclicAlias.message(), "cyclic alias");
    assert_eq!(DecodeError::TruncatedRead.message(), "truncated read");
    assert_eq!(DecodeError::VarintOverflow.message(), "varint overflow");
    assert_eq!(DecodeError::LengthExceeds.message(), "length exceeds remaining bytes");
    assert_eq!(DecodeError::NestingLimit.message(), "nesting limit");
}

#[test]
fn cursor_reads_and_bounds() {
    let data = [1u8, 2, 3, 4, 5];
    let mut cur = Cursor::new(&data);
    assert_eq!(cur.remaining(), 5);
    assert_eq!(cur.read_u8(), Ok(1));
    assert_eq!(cur.read_le(2), Ok(0x0302));
    assert_eq!(cur.position(), 3);
    let sub = cur.bounded(1).unwrap();
    assert_eq!(sub.remaining(), 1);
    assert_eq!(sub.position(), 3);
    assert!(cur.bounded(3).is_none());
    assert_eq!(cur.take(2), Some(&data[3..5]));
    assert_eq!(cur.take(1), None);
    assert_eq!(cur.read_u8(), Err(DecodeError::TruncatedRead));
    assert_eq!(cur.remaining(), 0);
}

#[test]
fn binary_decoder_reads_in_sequence() {
    let cs = position_container();
    let data = [0x81, 0x01, 0x02, 0xff, 0xff, 0xff, 0xff, 0xff, 0xff, 0xff, 0xff, 0x7f, 5, 6, 7];
    let mut d = BinaryDecoder::new(&data, &cs);
    assert_eq!(d.read_varint32(), Ok(129));
    assert_eq!(d.read_count(&CountType::VarInt), Ok(2));
    assert_eq!(d.read_varint64(), Ok(i64::MAX as u64));
    assert_eq!(
        d.decode_value(&ProtoType::Container("pos".to_string())).map(|v| v.value),
        Ok(pos(5, 6))
    );
    let rec = d.decode_fields(&[field("last", ProtoType::U8), field("more", ProtoType::U8)]);
    assert_eq!(
        rec,
        DecodedFields {
            fields: vec![
                ("last".to_string(), Value::Int(7)),
                ("more".to_string(), s("[decode_error: truncated read]")),
            ],
            failures: vec![("more".to_string(), DecodeError::TruncatedRead)],
        }
    );
    assert_eq!(d.cursor.position(), data.len());
    assert_eq!(d.read_varint32(), Err(DecodeError::TruncatedRead));
}
