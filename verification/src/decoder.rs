//! The schema-driven binary decoder: one decoded value per node of a resolved
//! wire type, read from a byte cursor.

use vstd::prelude::*;
use crate::text::{
    decimal_text, first_char, hex_text, push_char, push_decimal, push_hex, str_eq, utf8_string,
    utf8_text,
};
use crate::types::{
    container_index, containers_view, fields_view, find_container, ContainerDef, ContainerView,
    CountType, FieldDef, FieldType, FieldView, ProtoType, TypeView,
};
use crate::value::{entries_view, lemma_array_view, lemma_object_view, values_view, Value, ValueView};
use crate::wire::{as_signed, le_value, varint32, varint64, zigzag, zigzag32, zigzag64, Cursor, DecodeError};

verus! {

/// What decoding one value yields: the value and the number of bytes it took,
/// or the error.
pub type Decoded = Result<(ValueView, nat), DecodeError>;

/// An integer as a decoded value: a number where it fits a signed 64-bit
/// integer, else its decimal text.
pub open spec fn number_value(v: int) -> ValueView {
    if v > i64::MAX {
        ValueView::Str(decimal_text(v as nat))
    } else {
        ValueView::Int(v as i64)
    }
}

/// Whether single-precision bits stand for an infinity or a NaN.
pub open spec fn non_finite32(bits: u32) -> bool {
    (bits / 0x80_0000) % 0x100 == 0xff
}

/// Whether double-precision bits stand for an infinity or a NaN.
pub open spec fn non_finite64(bits: u64) -> bool {
    (bits / 0x10_0000_0000_0000) % 0x800 == 0x7ff
}

/// A single-precision field: the number, or the integer zero for bits that
/// stand for no finite number.
pub open spec fn float32_value(bits: u32) -> ValueView {
    if non_finite32(bits) {
        ValueView::Int(0)
    } else {
        ValueView::F32(bits)
    }
}

/// A double-precision field: the number, or the integer zero for bits that
/// stand for no finite number.
pub open spec fn float64_value(bits: u64) -> ValueView {
    if non_finite64(bits) {
        ValueView::Int(0)
    } else {
        ValueView::F64(bits)
    }
}

/// A component of a vector: the number, or zero for bits that stand for no
/// finite number.
pub open spec fn component_value(bits: u32) -> ValueView {
    if non_finite32(bits) {
        ValueView::F32(0)
    } else {
        ValueView::F32(bits)
    }
}

/// Latin-1 text: each byte is a code point.
pub open spec fn latin_text(bytes: Seq<u8>) -> Seq<char> {
    Seq::new(bytes.len(), |i: int| bytes[i] as char)
}

/// The canonical 8-4-4-4-12 rendering of sixteen bytes.
pub open spec fn uuid_text(b: Seq<u8>) -> Seq<char> {
    hex_text(b.subrange(0, 4)) + seq!['-'] + hex_text(b.subrange(4, 6)) + seq!['-'] + hex_text(
        b.subrange(6, 8),
    ) + seq!['-'] + hex_text(b.subrange(8, 10)) + seq!['-'] + hex_text(b.subrange(10, 16))
}

/// The text put in place of a field that failed to decode.
pub open spec fn marker_text(e: DecodeError) -> Seq<char> {
    "[decode_error: "@ + e.message_text() + "]"@
}

/// The rendering of opaque bytes.
pub open spec fn buffer_text(bytes: Seq<u8>) -> Seq<char> {
    "0x"@ + hex_text(bytes)
}

/// The rendering of bytes in a format that the decoder does not parse.
pub open spec fn native_text(bytes: Seq<u8>) -> Seq<char> {
    "[native: 0x"@ + hex_text(bytes) + "]"@
}

/// The unsigned number in the first `width` bytes.
pub open spec fn fixed_raw(w: Seq<u8>, width: nat) -> Result<nat, DecodeError> {
    if w.len() < width {
        Err(DecodeError::TruncatedRead)
    } else {
        Ok(le_value(w.take(width as int)))
    }
}

/// A fixed-width little-endian integer field.
pub open spec fn int_field(w: Seq<u8>, width: nat, signed: bool) -> Decoded {
    match fixed_raw(w, width) {
        Err(e) => Err(e),
        Ok(raw) => Ok(
            (
                number_value(
                    if signed {
                        as_signed(raw, width)
                    } else {
                        raw as int
                    },
                ),
                width,
            ),
        ),
    }
}

/// A single-precision field: four bytes.
pub open spec fn float32_field(w: Seq<u8>) -> Decoded {
    match fixed_raw(w, 4) {
        Err(e) => Err(e),
        Ok(raw) => Ok((float32_value(raw as u32), 4)),
    }
}

/// A double-precision field: eight bytes.
pub open spec fn float64_field(w: Seq<u8>) -> Decoded {
    match fixed_raw(w, 8) {
        Err(e) => Err(e),
        Ok(raw) => Ok((float64_value(raw as u64), 8)),
    }
}

/// A boolean field: one byte, zero for false.
pub open spec fn bool_field(w: Seq<u8>) -> Decoded {
    match fixed_raw(w, 1) {
        Err(e) => Err(e),
        Ok(raw) => Ok((ValueView::Bool(raw != 0), 1)),
    }
}

/// A variable-length integer field of 32 or 64 bits, plain or zigzag-coded.
pub open spec fn varint_field(w: Seq<u8>, wide: bool, zig: bool) -> Decoded {
    if wide {
        match varint64(w) {
            Err(e) => Err(e),
            Ok((v, n)) => Ok(
                (
                    number_value(
                        if zig {
                            zigzag(v as nat)
                        } else {
                            v as int
                        },
                    ),
                    n,
                ),
            ),
        }
    } else {
        match varint32(w) {
            Err(e) => Err(e),
            Ok((v, n)) => Ok(
                (
                    number_value(
                        if zig {
                            zigzag(v as nat)
                        } else {
                            v as int
                        },
                    ),
                    n,
                ),
            ),
        }
    }
}

/// A UUID field: sixteen bytes, rendered without reordering.
pub open spec fn uuid_field(w: Seq<u8>) -> Decoded {
    if w.len() < 16 {
        Err(DecodeError::TruncatedRead)
    } else {
        Ok((ValueView::Str(uuid_text(w.take(16))), 16))
    }
}

/// A count: always a 32-bit magnitude; signed encodings are reinterpreted.
pub open spec fn count_value(ct: CountType, w: Seq<u8>) -> Result<(u32, nat), DecodeError> {
    match ct {
        CountType::VarInt => varint32(w),
        CountType::ZigZag32 => match varint32(w) {
            Err(e) => Err(e),
            Ok((v, n)) => Ok(((zigzag(v as nat) % 0x1_0000_0000) as u32, n)),
        },
        CountType::LI16 => match fixed_raw(w, 2) {
            Err(e) => Err(e),
            Ok(raw) => Ok(((as_signed(raw, 2) % 0x1_0000_0000) as u32, 2)),
        },
        CountType::LI32 => match fixed_raw(w, 4) {
            Err(e) => Err(e),
            Ok(raw) => Ok(((as_signed(raw, 4) % 0x1_0000_0000) as u32, 4)),
        },
        CountType::LI64 => match fixed_raw(w, 8) {
            Err(e) => Err(e),
            Ok(raw) => Ok(((as_signed(raw, 8) % 0x1_0000_0000) as u32, 8)),
        },
        CountType::LU16 => match fixed_raw(w, 2) {
            Err(e) => Err(e),
            Ok(raw) => Ok((raw as u32, 2)),
        },
        CountType::LU32 => match fixed_raw(w, 4) {
            Err(e) => Err(e),
            Ok(raw) => Ok((raw as u32, 4)),
        },
        CountType::Fixed(n) => Ok((n, 0)),
    }
}

/// Bytes behind a count: the count, then that many bytes.
pub open spec fn counted_bytes(ct: CountType, w: Seq<u8>) -> Result<(Seq<u8>, nat), DecodeError> {
    match count_value(ct, w) {
        Err(e) => Err(e),
        Ok((count, n)) => if count > w.len() - n {
            Err(DecodeError::LengthExceeds)
        } else {
            Ok((w.subrange(n as int, n + count), n + count as nat))
        },
    }
}

/// A value made from counted bytes by `render`.
pub open spec fn counted_field(
    ct: CountType,
    w: Seq<u8>,
    render: spec_fn(Seq<u8>) -> Seq<char>,
) -> Decoded {
    match counted_bytes(ct, w) {
        Err(e) => Err(e),
        Ok((bytes, n)) => Ok((ValueView::Str(render(bytes)), n)),
    }
}

/// A vector of `n` single-precision components named x, y, z.
pub open spec fn vector_field(w: Seq<u8>, n: nat) -> Decoded {
    if w.len() < 4 * n {
        Err(DecodeError::TruncatedRead)
    } else {
        let x = ("x"@, component_value(le_value(w.subrange(0, 4)) as u32));
        let y = ("y"@, component_value(le_value(w.subrange(4, 8)) as u32));
        let z = ("z"@, component_value(le_value(w.subrange(8, 12)) as u32));
        Ok(
            (
                ValueView::Object(
                    if n == 2 {
                        seq![x, y]
                    } else {
                        seq![x, y, z]
                    },
                ),
                4 * n,
            ),
        )
    }
}

/// Whether a field is passed over when a record is decoded: the name `_` and
/// names that start with `!` are reserved.
pub open spec fn is_reserved(name: Seq<char>) -> bool {
    name == seq!['_'] || (name.len() > 0 && name[0] == '!')
}

/// A field that failed to decode: its name and the error.
pub type Failure = (Seq<char>, DecodeError);

/// What decoding a list of fields yields: the fields that were decoded, in
/// order, the last of them with the marker text where it failed; the fields
/// that failed, here or in the containers below; and the number of bytes
/// taken by what was decoded.
pub struct RecordView {
    pub fields: Seq<(Seq<char>, ValueView)>,
    pub failures: Seq<Failure>,
    pub consumed: nat,
}

/// What decoding a value yields: the value, the number of bytes it took, and
/// the fields that failed in the containers inside it.
pub struct DecodedView {
    pub value: ValueView,
    pub consumed: nat,
    pub failures: Seq<Failure>,
}

/// A value without failed fields inside it.
pub open spec fn whole(d: Decoded) -> Result<DecodedView, DecodeError> {
    match d {
        Ok((value, consumed)) => Ok(DecodedView { value, consumed, failures: Seq::empty() }),
        Err(e) => Err(e),
    }
}

/// The value of a type that holds no other type: numbers, text, bytes.
/// Types that do hold another are left to `decode_value_spec`.
pub open spec fn plain_value_spec(ty: TypeView, w: Seq<u8>) -> Decoded {
    match ty {
        TypeView::I8 => int_field(w, 1, true),
        TypeView::U8 => int_field(w, 1, false),
        TypeView::I16 => int_field(w, 2, true),
        TypeView::U16 => int_field(w, 2, false),
        TypeView::I32 => int_field(w, 4, true),
        TypeView::U32 => int_field(w, 4, false),
        TypeView::I64 => int_field(w, 8, true),
        TypeView::U64 => int_field(w, 8, false),
        TypeView::LI16 => int_field(w, 2, true),
        TypeView::LI32 => int_field(w, 4, true),
        TypeView::LI64 => int_field(w, 8, true),
        TypeView::LU16 => int_field(w, 2, false),
        TypeView::LU32 => int_field(w, 4, false),
        TypeView::LU64 => int_field(w, 8, false),
        TypeView::F32 => float32_field(w),
        TypeView::F64 => float64_field(w),
        TypeView::Bool => bool_field(w),
        TypeView::VarInt32 => varint_field(w, false, false),
        TypeView::VarInt64 => varint_field(w, true, false),
        TypeView::ZigZag32 => varint_field(w, false, true),
        TypeView::ZigZag64 => varint_field(w, true, true),
        TypeView::String(ct) => counted_field(ct, w, |b: Seq<u8>| utf8_text(b)),
        TypeView::LittleString => counted_field(CountType::LI32, w, |b: Seq<u8>| utf8_text(b)),
        TypeView::ShortString => counted_field(CountType::LI16, w, |b: Seq<u8>| utf8_text(b)),
        TypeView::LatinString => counted_field(CountType::VarInt, w, |b: Seq<u8>| latin_text(b)),
        TypeView::Buffer(ct) => counted_field(ct, w, |b: Seq<u8>| buffer_text(b)),
        TypeView::UUID => uuid_field(w),
        TypeView::Vec2F => vector_field(w, 2),
        TypeView::Vec3F => vector_field(w, 3),
        TypeView::Native(_tag) => Ok((ValueView::Str(native_text(w)), w.len())),
        _ => Ok((ValueView::Str(buffer_text(w)), w.len())),
    }
}

/// The value of type `ty` at the start of the window `w`. `depth` is how
/// many more levels of containers may be entered; the number of containers
/// is enough for every chain of containers that holds none twice. A container is decoded as
/// far as its fields decode: a field that fails ends the container, which
/// then holds the marker for that field, and the failure is reported beside
/// the value. An encapsulated value takes the bytes that its length covers,
/// whatever the inner value took of them.
pub open spec fn decode_value_spec(
    cs: Seq<ContainerView>,
    ty: TypeView,
    w: Seq<u8>,
    depth: nat,
) -> Result<DecodedView, DecodeError>
    decreases depth, 0nat, ty.height(), 0nat,
{
    match ty {
        TypeView::Array(elem, ct) => match count_value(ct, w) {
            Err(e) => Err(e),
            Ok((count, n)) => match decode_elements_spec(
                cs,
                *elem,
                count as nat,
                w.skip(n as int),
                depth,
            ) {
                Err(e) => Err(e),
                Ok(items) => Ok(
                    DecodedView {
                        value: ValueView::Array(items.0),
                        consumed: n + items.1,
                        failures: items.2,
                    },
                ),
            },
        },
        TypeView::Encapsulated(inner) => match counted_bytes(CountType::VarInt, w) {
            Err(e) => Err(e),
            Ok((bytes, n)) => match decode_value_spec(cs, *inner, bytes, depth) {
                Err(e) => Err(e),
                Ok(d) => Ok(DecodedView { value: d.value, consumed: n, failures: d.failures }),
            },
        },
        TypeView::Container(name) => if depth == 0 {
            Err(DecodeError::NestingLimit)
        } else {
            match find_container(cs, name) {
                None => Err(DecodeError::UnknownType),
                Some(fields) => {
                    let rec = decode_fields_spec(cs, fields, w, (depth - 1) as nat);
                    Ok(
                        DecodedView {
                            value: ValueView::Object(rec.fields),
                            consumed: rec.consumed,
                            failures: rec.failures,
                        },
                    )
                },
            }
        },
        _ => whole(plain_value_spec(ty, w)),
    }
}

/// `count` values of type `elem`, one after the other, with the bytes they
/// take and the fields that failed inside them.
pub open spec fn decode_elements_spec(
    cs: Seq<ContainerView>,
    elem: TypeView,
    count: nat,
    w: Seq<u8>,
    depth: nat,
) -> Result<(Seq<ValueView>, nat, Seq<Failure>), DecodeError>
    decreases depth, 0nat, elem.height(), count + 1,
{
    if count == 0 {
        Ok((Seq::empty(), 0, Seq::empty()))
    } else {
        match decode_value_spec(cs, elem, w, depth) {
            Err(e) => Err(e),
            Ok(d) => match decode_elements_spec(
                cs,
                elem,
                (count - 1) as nat,
                w.skip(d.consumed as int),
                depth,
            ) {
                Err(e) => Err(e),
                Ok(rest) => Ok(
                    (seq![d.value] + rest.0, d.consumed + rest.1, d.failures + rest.2),
                ),
            },
        }
    }
}

/// The fields of a record in schema order. Reserved names are passed over.
/// The first field that fails is given the marker text as its value, and
/// nothing after it is decoded.
pub open spec fn decode_fields_spec(
    cs: Seq<ContainerView>,
    fields: Seq<FieldView>,
    w: Seq<u8>,
    depth: nat,
) -> RecordView
    decreases depth, 1nat, fields.len(), 0nat,
{
    if fields.len() == 0 {
        RecordView { fields: Seq::empty(), failures: Seq::empty(), consumed: 0 }
    } else if is_reserved(fields[0].name) {
        decode_fields_spec(cs, fields.drop_first(), w, depth)
    } else {
        let name = fields[0].name;
        let first = match fields[0].ty {
            Err(e) => Err(e),
            Ok(ty) => decode_value_spec(cs, ty, w, depth),
        };
        match first {
            Err(e) => RecordView {
                fields: seq![(name, ValueView::Str(marker_text(e)))],
                failures: seq![(name, e)],
                consumed: 0,
            },
            Ok(d) => {
                let rest = decode_fields_spec(
                    cs,
                    fields.drop_first(),
                    w.skip(d.consumed as int),
                    depth,
                );
                RecordView {
                    fields: seq![(name, d.value)] + rest.fields,
                    failures: d.failures + rest.failures,
                    consumed: d.consumed + rest.consumed,
                }
            },
        }
    }
}

/// That `after` is `before` with the next `n` bytes read.
pub open spec fn read_from(before: Cursor, after: Cursor, n: nat) -> bool {
    &&& n <= before.unread().len()
    &&& after.unread() == before.unread().skip(n as int)
    &&& after.offset() == before.offset() + n
}

/// That a decoding step went as `expected` says: on success the value and
/// the bytes read are the expected ones; a failure is the expected one and
/// has consumed nothing.
pub open spec fn decodes(
    before: Cursor,
    after: Cursor,
    r: Result<Value, DecodeError>,
    expected: Decoded,
) -> bool {
    match r {
        Ok(v) => expected matches Ok((val, n)) && v@ == val && read_from(before, after, n),
        Err(e) => expected == Err::<(ValueView, nat), DecodeError>(e) && after == before,
    }
}

/// The decoded value of an unsigned number.
fn unsigned_value(raw: u64) -> (v: Value)
    ensures
        v@ == number_value(raw as int),
{
    if raw > 0x7fff_ffff_ffff_ffff {
        let mut s = String::new();
        push_decimal(&mut s, raw);
        Value::Str(s)
    } else {
        Value::Int(raw as i64)
    }
}

/// The two's-complement reading of `raw` at `width` bytes.
fn signed_of(raw: u64, width: usize) -> (v: i64)
    requires
        width == 1 || width == 2 || width == 4 || width == 8,
        crate::wire::fits_width(raw as nat, width as nat),
    ensures
        v == as_signed(raw as nat, width as nat),
{
    if width == 1 {
        if raw >= 0x80 { raw as i64 - 0x100 } else { raw as i64 }
    } else if width == 2 {
        if raw >= 0x8000 { raw as i64 - 0x1_0000 } else { raw as i64 }
    } else if width == 4 {
        if raw >= 0x8000_0000 { raw as i64 - 0x1_0000_0000 } else { raw as i64 }
    } else {
        if raw >= 0x8000_0000_0000_0000 {
            (raw - 0x8000_0000_0000_0000) as i64 - 0x4000_0000_0000_0000 - 0x4000_0000_0000_0000
        } else {
            raw as i64
        }
    }
}

/// Decodes a fixed-width little-endian integer.
pub fn decode_int(cur: &mut Cursor, width: usize, signed: bool) -> (r: Result<Value, DecodeError>)
    requires
        width == 1 || width == 2 || width == 4 || width == 8,
    ensures
        decodes(
            *old(cur),
            *final(cur),
            r,
            int_field(old(cur).unread(), width as nat, signed),
        ),
{
    match cur.read_le(width) {
        Err(e) => Err(e),
        Ok(raw) => if signed {
            Ok(Value::Int(signed_of(raw, width)))
        } else {
            Ok(unsigned_value(raw))
        },
    }
}

/// Decodes a single-precision number.
pub fn decode_float32(cur: &mut Cursor) -> (r: Result<Value, DecodeError>)
    ensures
        decodes(*old(cur), *final(cur), r, float32_field(old(cur).unread())),
{
    match cur.read_le(4) {
        Err(e) => Err(e),
        Ok(raw) => {
            let bits = raw as u32;
            if (bits / 0x80_0000) % 0x100 == 0xff {
                Ok(Value::Int(0))
            } else {
                Ok(Value::F32(bits))
            }
        },
    }
}

/// Decodes a double-precision number.
pub fn decode_float64(cur: &mut Cursor) -> (r: Result<Value, DecodeError>)
    ensures
        decodes(*old(cur), *final(cur), r, float64_field(old(cur).unread())),
{
    match cur.read_le(8) {
        Err(e) => Err(e),
        Ok(bits) => {
            if (bits / 0x10_0000_0000_0000) % 0x800 == 0x7ff {
                Ok(Value::Int(0))
            } else {
                Ok(Value::F64(bits))
            }
        },
    }
}

/// Decodes a boolean: one byte, zero for false.
pub fn decode_bool(cur: &mut Cursor) -> (r: Result<Value, DecodeError>)
    ensures
        decodes(*old(cur), *final(cur), r, bool_field(old(cur).unread())),
{
    match cur.read_le(1) {
        Err(e) => Err(e),
        Ok(raw) => Ok(Value::Bool(raw != 0)),
    }
}

/// A zigzag-coded count as a 32-bit magnitude.
fn zigzag_count(v: u32) -> (r: u32)
    ensures
        r == (zigzag(v as nat) % 0x1_0000_0000) as u32,
{
    let z = zigzag32(v);
    if z >= 0 {
        z as u32
    } else {
        (z as i64 + 0x1_0000_0000) as u32
    }
}

/// A signed 16-bit count as a 32-bit magnitude.
fn short_count(raw: u64) -> (r: u32)
    requires
        raw < 0x1_0000,
    ensures
        r == (as_signed(raw as nat, 2) % 0x1_0000_0000) as u32,
{
    if raw >= 0x8000 {
        (raw + 0xffff_0000) as u32
    } else {
        raw as u32
    }
}

/// A signed 32-bit count as a 32-bit magnitude.
fn word_count(raw: u64) -> (r: u32)
    requires
        raw < 0x1_0000_0000,
    ensures
        r == (as_signed(raw as nat, 4) % 0x1_0000_0000) as u32,
{
    raw as u32
}

/// A signed 64-bit count as a 32-bit magnitude.
fn long_count(raw: u64) -> (r: u32)
    ensures
        r == (as_signed(raw as nat, 8) % 0x1_0000_0000) as u32,
{
    let r = (raw % 0x1_0000_0000) as u32;
    proof {
        if raw >= 0x8000_0000_0000_0000 {
            assert((raw - 0x1_0000_0000_0000_0000) % 0x1_0000_0000 == raw % 0x1_0000_0000) by {
                assert(0x1_0000_0000_0000_0000 == 0x1_0000_0000 * 0x1_0000_0000int);
                vstd::arithmetic::div_mod::lemma_mod_multiples_vanish(
                    -0x1_0000_0000int,
                    raw as int,
                    0x1_0000_0000,
                );
            }
        }
    }
    r
}

/// Reads a count of the given encoding. A failed read consumes nothing.
#[verifier::rlimit(40)]
pub fn read_count(cur: &mut Cursor, ct: &CountType) -> (r: Result<u32, DecodeError>)
    ensures
        match r {
            Ok(c) => count_value(*ct, old(cur).unread()) matches Ok((count, n)) && c == count
                && read_from(*old(cur), *final(cur), n),
            Err(e) => count_value(*ct, old(cur).unread()) == Err::<(u32, nat), DecodeError>(e)
                && *final(cur) == *old(cur),
        },
{
    match ct {
        CountType::VarInt => cur.read_varint32(),
        CountType::ZigZag32 => match cur.read_varint32() {
            Err(e) => Err(e),
            Ok(v) => Ok(zigzag_count(v)),
        },
        CountType::LI16 => match cur.read_le(2) {
            Err(e) => Err(e),
            Ok(raw) => Ok(short_count(raw)),
        },
        CountType::LI32 => match cur.read_le(4) {
            Err(e) => Err(e),
            Ok(raw) => Ok(word_count(raw)),
        },
        CountType::LI64 => match cur.read_le(8) {
            Err(e) => Err(e),
            Ok(raw) => Ok(long_count(raw)),
        },
        CountType::LU16 => match cur.read_le(2) {
            Err(e) => Err(e),
            Ok(raw) => Ok(raw as u32),
        },
        CountType::LU32 => match cur.read_le(4) {
            Err(e) => Err(e),
            Ok(raw) => Ok(raw as u32),
        },
        CountType::Fixed(n) => {
            proof {
                assert(cur.unread().skip(0) == cur.unread());
            }
            Ok(*n)
        },
    }
}

/// Reads a count and then that many bytes. A failed read consumes nothing.
#[verifier::rlimit(40)]
pub fn read_counted<'a>(cur: &mut Cursor<'a>, ct: &CountType) -> (r: Result<&'a [u8], DecodeError>)
    ensures
        match r {
            Ok(bytes) => counted_bytes(*ct, old(cur).unread()) matches Ok((b, n)) && bytes@ == b
                && read_from(*old(cur), *final(cur), n),
            Err(e) => counted_bytes(*ct, old(cur).unread()) == Err::<(Seq<u8>, nat), DecodeError>(
                e,
            ) && *final(cur) == *old(cur),
        },
{
    let saved = *cur;
    let ghost w = cur.unread();
    match read_count(cur, ct) {
        Err(e) => Err(e),
        Ok(count) => match cur.take(count as usize) {
            None => {
                *cur = saved;
                Err(DecodeError::LengthExceeds)
            },
            Some(bytes) => {
                proof {
                    let n = count_value(*ct, w)->Ok_0.1;
                    assert(w.skip(n as int).take(count as int) == w.subrange(n as int, n + count));
                    assert(w.skip(n as int).skip(count as int) == w.skip(n + count));
                }
                Ok(bytes)
            },
        },
    }
}

/// Decodes a variable-length integer of 32 or 64 bits, plain or zigzag-coded.
pub fn decode_varint(cur: &mut Cursor, wide: bool, zig: bool) -> (r: Result<Value, DecodeError>)
    ensures
        decodes(*old(cur), *final(cur), r, varint_field(old(cur).unread(), wide, zig)),
{
    if wide {
        match cur.read_varint64() {
            Err(e) => Err(e),
            Ok(v) => if zig {
                Ok(Value::Int(zigzag64(v)))
            } else {
                Ok(unsigned_value(v))
            },
        }
    } else {
        match cur.read_varint32() {
            Err(e) => Err(e),
            Ok(v) => if zig {
                Ok(Value::Int(zigzag32(v) as i64))
            } else {
                Ok(Value::Int(v as i64))
            },
        }
    }
}

/// Decodes a length-prefixed UTF-8 string.
pub fn decode_string(cur: &mut Cursor, ct: &CountType) -> (r: Result<Value, DecodeError>)
    ensures
        decodes(
            *old(cur),
            *final(cur),
            r,
            counted_field(*ct, old(cur).unread(), |b: Seq<u8>| utf8_text(b)),
        ),
{
    match read_counted(cur, ct) {
        Err(e) => Err(e),
        Ok(bytes) => Ok(Value::Str(utf8_string(bytes))),
    }
}

/// Decodes a length-prefixed Latin-1 string.
#[verifier::rlimit(40)]
pub fn decode_latin(cur: &mut Cursor) -> (r: Result<Value, DecodeError>)
    ensures
        decodes(
            *old(cur),
            *final(cur),
            r,
            counted_field(CountType::VarInt, old(cur).unread(), |b: Seq<u8>| latin_text(b)),
        ),
{
    match read_counted(cur, &CountType::VarInt) {
        Err(e) => Err(e),
        Ok(bytes) => {
            let mut s = String::new();
            let mut i: usize = 0;
            while i < bytes.len()
                invariant
                    i <= bytes.len(),
                    s@ == latin_text(bytes@.take(i as int)),
                decreases bytes.len() - i,
            {
                push_char(&mut s, bytes[i] as char);
                i += 1;
                proof {
                    assert(latin_text(bytes@.take(i as int)) == latin_text(
                        bytes@.take(i - 1),
                    ).push(bytes@[i - 1] as char));
                }
            }
            proof {
                assert(bytes@.take(bytes.len() as int) == bytes@);
            }
            Ok(Value::Str(s))
        },
    }
}

/// Decodes length-prefixed opaque bytes.
pub fn decode_buffer(cur: &mut Cursor, ct: &CountType) -> (r: Result<Value, DecodeError>)
    ensures
        decodes(
            *old(cur),
            *final(cur),
            r,
            counted_field(*ct, old(cur).unread(), |b: Seq<u8>| buffer_text(b)),
        ),
{
    match read_counted(cur, ct) {
        Err(e) => Err(e),
        Ok(bytes) => {
            let mut s = String::from_str("0x");
            push_hex(&mut s, bytes);
            Ok(Value::Str(s))
        },
    }
}

/// Decodes a UUID.
#[verifier::rlimit(40)]
pub fn decode_uuid(cur: &mut Cursor) -> (r: Result<Value, DecodeError>)
    ensures
        decodes(*old(cur), *final(cur), r, uuid_field(old(cur).unread())),
{
    match cur.take(16) {
        None => Err(DecodeError::TruncatedRead),
        Some(b) => {
            let mut s = String::new();
            push_hex(&mut s, vstd::slice::slice_subrange(b, 0, 4));
            push_char(&mut s, '-');
            push_hex(&mut s, vstd::slice::slice_subrange(b, 4, 6));
            push_char(&mut s, '-');
            push_hex(&mut s, vstd::slice::slice_subrange(b, 6, 8));
            push_char(&mut s, '-');
            push_hex(&mut s, vstd::slice::slice_subrange(b, 8, 10));
            push_char(&mut s, '-');
            push_hex(&mut s, vstd::slice::slice_subrange(b, 10, 16));
            proof {
                assert(s@ =~= uuid_text(b@));
            }
            Ok(Value::Str(s))
        },
    }
}

/// The decoded component of a vector.
fn component(raw: u64) -> (v: Value)
    requires
        raw < 0x1_0000_0000,
    ensures
        v@ == component_value(raw as u32),
{
    let bits = raw as u32;
    if (bits / 0x80_0000) % 0x100 == 0xff {
        Value::F32(0)
    } else {
        Value::F32(bits)
    }
}

/// Decodes a vector of two or three single-precision components.
#[verifier::rlimit(40)]
pub fn decode_vector(cur: &mut Cursor, n: usize) -> (r: Result<Value, DecodeError>)
    requires
        n == 2 || n == 3,
    ensures
        decodes(*old(cur), *final(cur), r, vector_field(old(cur).unread(), n as nat)),
{
    let ghost w = cur.unread();
    if cur.remaining() < 4 * n {
        return Err(DecodeError::TruncatedRead);
    }
    let mut entries: Vec<(String, Value)> = Vec::new();
    let x = match cur.read_le(4) {
        Ok(raw) => component(raw),
        Err(e) => {
            return Err(e);
        },
    };
    let y = match cur.read_le(4) {
        Ok(raw) => component(raw),
        Err(e) => {
            return Err(e);
        },
    };
    proof {
        assert(w.take(4) == w.subrange(0, 4));
        assert(w.skip(4).take(4) == w.subrange(4, 8));
        assert(w.skip(4).skip(4) == w.skip(8));
    }
    entries.push((String::from_str("x"), x));
    entries.push((String::from_str("y"), y));
    if n == 3 {
        let z = match cur.read_le(4) {
            Ok(raw) => component(raw),
            Err(e) => {
                return Err(e);
            },
        };
        proof {
            assert(w.skip(8).take(4) == w.subrange(8, 12));
            assert(w.skip(8).skip(4) == w.skip(12));
        }
        entries.push((String::from_str("z"), z));
    }
    proof {
        lemma_object_view(entries);
        let expected = vector_field(w, n as nat)->Ok_0.0->Object_0;
        assert(entries_view(entries@) =~= expected);
    }
    Ok(Value::Object(entries))
}

/// Decodes everything left in scope as opaque bytes; `native` chooses the
/// tagged rendering.
pub fn decode_rest(cur: &mut Cursor, native: bool) -> (r: Value)
    ensures
        r@ == ValueView::Str(
            if native {
                native_text(old(cur).unread())
            } else {
                buffer_text(old(cur).unread())
            },
        ),
        read_from(*old(cur), *final(cur), old(cur).unread().len()),
{
    let ghost w = cur.unread();
    let n = cur.remaining();
    match cur.take(n) {
        None => Value::Null,
        Some(bytes) => {
            proof {
                assert(w.take(n as int) == w);
            }
            if native {
                let mut s = String::from_str("[native: 0x");
                push_hex(&mut s, bytes);
                s.append("]");
                Value::Str(s)
            } else {
                let mut s = String::from_str("0x");
                push_hex(&mut s, bytes);
                Value::Str(s)
            }
        },
    }
}

/// The views of a list of failed fields, field by field.
pub open spec fn failures_view(failures: Seq<(String, DecodeError)>) -> Seq<Failure> {
    Seq::new(failures.len(), |i: int| (failures[i].0@, failures[i].1))
}

/// The fields decoded from a record, and the fields that failed.
#[derive(Debug, PartialEq)]
pub struct DecodedFields {
    /// The decoded fields in schema order; a failed field holds the marker text.
    pub fields: Vec<(String, Value)>,
    /// The fields that failed, in the record or in the containers inside it,
    /// each with its error.
    pub failures: Vec<(String, DecodeError)>,
}

/// A decoded value, and the fields that failed in the containers inside it.
#[derive(Debug, PartialEq)]
pub struct DecodedValue {
    pub value: Value,
    pub failures: Vec<(String, DecodeError)>,
}

/// That a decoding step went as `expected` says: on success the value, the
/// failed fields and the bytes read are the expected ones; a failure is the
/// expected one and has consumed nothing.
pub open spec fn decodes_nested(
    before: Cursor,
    after: Cursor,
    r: Result<DecodedValue, DecodeError>,
    expected: Result<DecodedView, DecodeError>,
) -> bool {
    match r {
        Ok(d) => expected matches Ok(e) && d.value@ == e.value && failures_view(d.failures@)
            == e.failures && read_from(before, after, e.consumed),
        Err(e) => expected == Err::<DecodedView, DecodeError>(e) && after == before,
    }
}

/// Values decoded so far, followed by what the rest decodes to.
pub open spec fn join_elements(
    head: Seq<ValueView>,
    used: nat,
    failed: Seq<Failure>,
    rest: Result<(Seq<ValueView>, nat, Seq<Failure>), DecodeError>,
) -> Result<(Seq<ValueView>, nat, Seq<Failure>), DecodeError> {
    match rest {
        Err(e) => Err(e),
        Ok(tail) => Ok((head + tail.0, used + tail.1, failed + tail.2)),
    }
}

/// Fields decoded so far, followed by what the rest decodes to.
pub open spec fn join_fields(
    head: Seq<(Seq<char>, ValueView)>,
    used: nat,
    failed: Seq<Failure>,
    rest: RecordView,
) -> RecordView {
    RecordView {
        fields: head + rest.fields,
        failures: failed + rest.failures,
        consumed: used + rest.consumed,
    }
}

/// Whether a field name is reserved and so passed over.
pub fn reserved_name(name: &str) -> (r: bool)
    ensures
        r == is_reserved(name@),
{
    proof {
        reveal_strlit("_");
        assert("_"@ =~= seq!['_']);
    }
    if str_eq(name, "_") {
        true
    } else {
        match first_char(name) {
            Some(c) => c == '!',
            None => false,
        }
    }
}

/// The marker put in place of a field that failed with `e`.
pub fn marker(e: DecodeError) -> (v: Value)
    ensures
        v@ == ValueView::Str(marker_text(e)),
{
    let mut s = String::from_str("[decode_error: ");
    let msg = e.message();
    s.append(msg.as_str());
    s.append("]");
    Value::Str(s)
}

/// Decodes one value of a type that holds no other type. A failed decode
/// consumes nothing.
pub fn decode_plain(ty: &ProtoType, cur: &mut Cursor) -> (r: Result<Value, DecodeError>)
    requires
        !(ty is Array),
        !(ty is Encapsulated),
        !(ty is Container),
    ensures
        decodes(*old(cur), *final(cur), r, plain_value_spec(ty@, old(cur).unread())),
{
    match ty {
        ProtoType::I8 => decode_int(cur, 1, true),
        ProtoType::U8 => decode_int(cur, 1, false),
        ProtoType::I16 => decode_int(cur, 2, true),
        ProtoType::U16 => decode_int(cur, 2, false),
        ProtoType::I32 => decode_int(cur, 4, true),
        ProtoType::U32 => decode_int(cur, 4, false),
        ProtoType::I64 => decode_int(cur, 8, true),
        ProtoType::U64 => decode_int(cur, 8, false),
        ProtoType::LI16 => decode_int(cur, 2, true),
        ProtoType::LI32 => decode_int(cur, 4, true),
        ProtoType::LI64 => decode_int(cur, 8, true),
        ProtoType::LU16 => decode_int(cur, 2, false),
        ProtoType::LU32 => decode_int(cur, 4, false),
        ProtoType::LU64 => decode_int(cur, 8, false),
        ProtoType::F32 => decode_float32(cur),
        ProtoType::F64 => decode_float64(cur),
        ProtoType::Bool => decode_bool(cur),
        ProtoType::VarInt32 => decode_varint(cur, false, false),
        ProtoType::VarInt64 => decode_varint(cur, true, false),
        ProtoType::ZigZag32 => decode_varint(cur, false, true),
        ProtoType::ZigZag64 => decode_varint(cur, true, true),
        ProtoType::String(ct) => decode_string(cur, ct),
        ProtoType::LittleString => decode_string(cur, &CountType::LI32),
        ProtoType::ShortString => decode_string(cur, &CountType::LI16),
        ProtoType::LatinString => decode_latin(cur),
        ProtoType::Buffer(ct) => decode_buffer(cur, ct),
        ProtoType::UUID => decode_uuid(cur),
        ProtoType::Vec2F => decode_vector(cur, 2),
        ProtoType::Vec3F => decode_vector(cur, 3),
        ProtoType::Native(_tag) => Ok(decode_rest(cur, true)),
        _ => Ok(decode_rest(cur, false)),
    }
}

/// The view of a type that holds no other type holds none either.
proof fn lemma_plain_view(ty: ProtoType)
    requires
        !(ty is Array),
        !(ty is Encapsulated),
        !(ty is Container),
    ensures
        !(ty@ is Array),
        !(ty@ is Encapsulated),
        !(ty@ is Container),
{
}

/// Decodes one value of type `ty` at the cursor. `depth` is how many more
/// levels of containers may be entered. A failed decode consumes nothing;
/// a container whose field fails is decoded up to that field, and the
/// failure is handed back beside the value.
pub fn decode_value(
    containers: &[ContainerDef],
    ty: &ProtoType,
    cur: &mut Cursor,
    depth: usize,
) -> (r: Result<DecodedValue, DecodeError>)
    ensures
        decodes_nested(
            *old(cur),
            *final(cur),
            r,
            decode_value_spec(containers_view(containers@), ty@, old(cur).unread(), depth as nat),
        ),
    decreases depth, 0nat, ty@.height(), 1nat,
{
    match ty {
        ProtoType::Array(elem, ct) => decode_array(containers, elem, ct, cur, depth),
        ProtoType::Encapsulated(inner) => decode_encapsulated(containers, inner, cur, depth),
        ProtoType::Container(name) => decode_container(containers, name, cur, depth),
        _ => {
            proof {
                lemma_plain_view(*ty);
            }
            match decode_plain(ty, cur) {
                Ok(value) => {
                    let failures: Vec<(String, DecodeError)> = Vec::new();
                    proof {
                        assert(failures_view(failures@) =~= Seq::empty());
                    }
                    Ok(DecodedValue { value, failures })
                },
                Err(e) => Err(e),
            }
        },
    }
}

/// Decodes an array: a count, then that many elements.
#[verifier::rlimit(40)]
pub fn decode_array(
    containers: &[ContainerDef],
    elem: &ProtoType,
    ct: &CountType,
    cur: &mut Cursor,
    depth: usize,
) -> (r: Result<DecodedValue, DecodeError>)
    ensures
        decodes_nested(
            *old(cur),
            *final(cur),
            r,
            decode_value_spec(
                containers_view(containers@),
                TypeView::Array(Box::new(elem@), *ct),
                old(cur).unread(),
                depth as nat,
            ),
        ),
    decreases depth, 0nat, elem@.height() + 1, 0nat,
{
    let saved = *cur;
    let ghost w = cur.unread();
    match read_count(cur, ct) {
        Err(e) => Err(e),
        Ok(count) => {
            let ghost n = count_value(*ct, w)->Ok_0.1;
            match decode_elements(containers, elem, count, cur, depth) {
                Err(e) => {
                    *cur = saved;
                    Err(e)
                },
                Ok(items) => {
                    proof {
                        lemma_array_view(items.0);
                        let m = decode_elements_spec(
                            containers_view(containers@),
                            elem@,
                            count as nat,
                            w.skip(n as int),
                            depth as nat,
                        )->Ok_0.1;
                        assert(w.skip(n as int).skip(m as int) == w.skip((n + m) as int));
                    }
                    Ok(DecodedValue { value: Value::Array(items.0), failures: items.1 })
                },
            }
        },
    }
}

/// Decodes a length-prefixed value: the inner value sees only the bytes that
/// the length covers, and the cursor ends behind them whatever the inner
/// value took.
pub fn decode_encapsulated(
    containers: &[ContainerDef],
    inner: &ProtoType,
    cur: &mut Cursor,
    depth: usize,
) -> (r: Result<DecodedValue, DecodeError>)
    ensures
        decodes_nested(
            *old(cur),
            *final(cur),
            r,
            decode_value_spec(
                containers_view(containers@),
                TypeView::Encapsulated(Box::new(inner@)),
                old(cur).unread(),
                depth as nat,
            ),
        ),
    decreases depth, 0nat, inner@.height() + 1, 0nat,
{
    let saved = *cur;
    match read_counted(cur, &CountType::VarInt) {
        Err(e) => Err(e),
        Ok(bytes) => {
            let mut sub = Cursor::new(bytes);
            match decode_value(containers, inner, &mut sub, depth) {
                Err(e) => {
                    *cur = saved;
                    Err(e)
                },
                Ok(d) => Ok(d),
            }
        },
    }
}

/// Decodes a container: the fields of the named struct, as far as they decode.
pub fn decode_container(
    containers: &[ContainerDef],
    name: &String,
    cur: &mut Cursor,
    depth: usize,
) -> (r: Result<DecodedValue, DecodeError>)
    ensures
        decodes_nested(
            *old(cur),
            *final(cur),
            r,
            decode_value_spec(
                containers_view(containers@),
                TypeView::Container(name@),
                old(cur).unread(),
                depth as nat,
            ),
        ),
    decreases depth, 0nat, 0nat, 0nat,
{
    if depth == 0 {
        return Err(DecodeError::NestingLimit);
    }
    match container_index(containers, name) {
        None => Err(DecodeError::UnknownType),
        Some(idx) => {
            let rec = decode_fields(containers, containers[idx].fields.as_slice(), cur, depth - 1);
            proof {
                lemma_object_view(rec.fields);
            }
            Ok(DecodedValue { value: Value::Object(rec.fields), failures: rec.failures })
        },
    }
}

/// Decodes `count` values of type `elem`, one after the other, and collects
/// the fields that failed inside them. A failed decode consumes nothing.
#[verifier::rlimit(40)]
pub fn decode_elements(
    containers: &[ContainerDef],
    elem: &ProtoType,
    count: u32,
    cur: &mut Cursor,
    depth: usize,
) -> (r: Result<(Vec<Value>, Vec<(String, DecodeError)>), DecodeError>)
    ensures
        match r {
            Ok(items) => decode_elements_spec(
                containers_view(containers@),
                elem@,
                count as nat,
                old(cur).unread(),
                depth as nat,
            ) matches Ok(e) && values_view(items.0@) == e.0 && failures_view(items.1@) == e.2
                && read_from(*old(cur), *final(cur), e.1),
            Err(e) => decode_elements_spec(
                containers_view(containers@),
                elem@,
                count as nat,
                old(cur).unread(),
                depth as nat,
            ) == Err::<(Seq<ValueView>, nat, Seq<Failure>), DecodeError>(e) && *final(cur) == *old(
                cur,
            ),
        },
    decreases depth, 0nat, elem@.height(), count + 1,
{
    let saved = *cur;
    let ghost cs = containers_view(containers@);
    let ghost w = cur.unread();
    let ghost whole = decode_elements_spec(cs, elem@, count as nat, w, depth as nat);
    let ghost mut used: nat = 0;
    let mut items: Vec<Value> = Vec::new();
    let mut failures: Vec<(String, DecodeError)> = Vec::new();
    let mut i: u32 = 0;
    proof {
        assert(w.skip(0) == w);
        assert(values_view(items@) =~= Seq::empty());
        assert(failures_view(failures@) =~= Seq::empty());
        match whole {
            Ok(tail) => {
                assert(Seq::<ValueView>::empty() + tail.0 =~= tail.0);
                assert(Seq::<Failure>::empty() + tail.2 =~= tail.2);
            },
            Err(_) => {},
        }
    }
    while i < count
        invariant
            i <= count,
            saved == *old(cur),
            cs == containers_view(containers@),
            w == old(cur).unread(),
            whole == decode_elements_spec(cs, elem@, count as nat, w, depth as nat),
            read_from(saved, *cur, used),
            whole == join_elements(
                values_view(items@),
                used,
                failures_view(failures@),
                decode_elements_spec(cs, elem@, (count - i) as nat, cur.unread(), depth as nat),
            ),
        decreases count - i,
    {
        let ghost here = cur.unread();
        let ghost head = values_view(items@);
        let ghost failed = failures_view(failures@);
        match decode_value(containers, elem, cur, depth) {
            Err(e) => {
                *cur = saved;
                return Err(e);
            },
            Ok(d) => {
                let ghost dv = decode_value_spec(cs, elem@, here, depth as nat)->Ok_0;
                let mut inner = d.failures;
                let ghost inner_view = failures_view(inner@);
                failures.append(&mut inner);
                proof {
                    let n = dv.consumed;
                    let rest = decode_elements_spec(
                        cs,
                        elem@,
                        (count - i - 1) as nat,
                        here.skip(n as int),
                        depth as nat,
                    );
                    assert(values_view(items@.push(d.value)) =~= head.push(d.value@));
                    assert(failures_view(failures@) =~= failed + inner_view);
                    match rest {
                        Ok(tail) => {
                            assert(head + (seq![d.value@] + tail.0) =~= head.push(d.value@)
                                + tail.0);
                            assert(failed + (inner_view + tail.2) =~= (failed + inner_view)
                                + tail.2);
                        },
                        Err(_) => {},
                    }
                    assert(w.skip(used as int).skip(n as int) == w.skip((used + n) as int));
                    used = used + n;
                }
                items.push(d.value);
                i += 1;
            },
        }
    }
    proof {
        assert(values_view(items@) + Seq::<ValueView>::empty() =~= values_view(items@));
        assert(failures_view(failures@) + Seq::<Failure>::empty() =~= failures_view(failures@));
    }
    Ok((items, failures))
}

/// Decodes the fields of a record in schema order. Reserved names are passed
/// over. The first field that fails is given the marker text, and nothing
/// after it is decoded; the cursor then stands where that field began.
#[verifier::rlimit(40)]
pub fn decode_fields(
    containers: &[ContainerDef],
    fields: &[FieldDef],
    cur: &mut Cursor,
    depth: usize,
) -> (r: DecodedFields)
    ensures
        ({
            let rec = decode_fields_spec(
                containers_view(containers@),
                fields_view(fields@),
                old(cur).unread(),
                depth as nat,
            );
            &&& entries_view(r.fields@) == rec.fields
            &&& failures_view(r.failures@) == rec.failures
            &&& read_from(*old(cur), *final(cur), rec.consumed)
        }),
    decreases depth, 1nat, fields@.len(), 0nat,
{
    let ghost start = *cur;
    let ghost cs = containers_view(containers@);
    let ghost fv = fields_view(fields@);
    let ghost w = cur.unread();
    let ghost whole = decode_fields_spec(cs, fv, w, depth as nat);
    let ghost mut used: nat = 0;
    let mut out: Vec<(String, Value)> = Vec::new();
    let mut failures: Vec<(String, DecodeError)> = Vec::new();
    let mut i: usize = 0;
    proof {
        assert(w.skip(0) == w);
        assert(fv.skip(0) == fv);
        assert(entries_view(out@) =~= Seq::empty());
        assert(failures_view(failures@) =~= Seq::empty());
        assert(Seq::<(Seq<char>, ValueView)>::empty() + whole.fields =~= whole.fields);
        assert(Seq::<Failure>::empty() + whole.failures =~= whole.failures);
    }
    while i < fields.len()
        invariant
            i <= fields@.len(),
            start == *old(cur),
            cs == containers_view(containers@),
            fv == fields_view(fields@),
            w == old(cur).unread(),
            whole == decode_fields_spec(cs, fv, w, depth as nat),
            read_from(start, *cur, used),
            whole == join_fields(
                entries_view(out@),
                used,
                failures_view(failures@),
                decode_fields_spec(cs, fv.skip(i as int), cur.unread(), depth as nat),
            ),
        decreases fields.len() - i,
    {
        let ghost here = cur.unread();
        let ghost head = entries_view(out@);
        let ghost failed = failures_view(failures@);
        let field = &fields[i];
        proof {
            assert(fv.skip(i as int).drop_first() == fv.skip(i + 1));
            assert(fv.skip(i as int)[0] == field@);
        }
        if reserved_name(field.name.as_str()) {
            i += 1;
            continue ;
        }
        let first = match &field.ty {
            FieldType::Unresolved(e) => Err(*e),
            FieldType::Known(ty) => decode_value(containers, ty, cur, depth),
        };
        match first {
            Err(e) => {
                out.push((field.name.clone(), marker(e)));
                failures.push((field.name.clone(), e));
                proof {
                    assert(entries_view(out@) =~= head + seq![
                        (field@.name, ValueView::Str(marker_text(e))),
                    ]);
                    assert(failures_view(failures@) =~= failed + seq![(field@.name, e)]);
                }
                return DecodedFields { fields: out, failures };
            },
            Ok(d) => {
                let ghost dv = decode_value_spec(cs, field@.ty->Ok_0, here, depth as nat)->Ok_0;
                let mut inner = d.failures;
                let ghost inner_view = failures_view(inner@);
                failures.append(&mut inner);
                proof {
                    let n = dv.consumed;
                    let rest = decode_fields_spec(
                        cs,
                        fv.skip(i + 1),
                        here.skip(n as int),
                        depth as nat,
                    );
                    assert(entries_view(out@.push((field.name, d.value))) =~= head.push(
                        (field@.name, d.value@),
                    ));
                    assert(failures_view(failures@) =~= failed + inner_view);
                    assert(head + (seq![(field@.name, d.value@)] + rest.fields) =~= head.push(
                        (field@.name, d.value@),
                    ) + rest.fields);
                    assert(failed + (inner_view + rest.failures) =~= (failed + inner_view)
                        + rest.failures);
                    assert(w.skip(used as int).skip(n as int) == w.skip((used + n) as int));
                    used = used + n;
                }
                out.push((field.name.clone(), d.value));
                i += 1;
            },
        }
    }
    proof {
        assert(entries_view(out@) + Seq::<(Seq<char>, ValueView)>::empty() =~= entries_view(out@));
        assert(failures_view(failures@) + Seq::<Failure>::empty() =~= failures_view(failures@));
    }
    DecodedFields { fields: out, failures }
}

/// A decoder over one byte slice: the cursor and the container table that
/// container types are looked up in.
pub struct BinaryDecoder<'a> {
    pub cursor: Cursor<'a>,
    pub containers: &'a [ContainerDef],
}

impl<'a> BinaryDecoder<'a> {
    /// A decoder at the start of `data`.
    pub fn new(data: &'a [u8], containers: &'a [ContainerDef]) -> (r: Self)
        ensures
            r.cursor.unread() == data@,
            r.cursor.offset() == 0,
            r.containers@ == containers@,
    {
        BinaryDecoder { cursor: Cursor::new(data), containers }
    }

    /// Decodes the fields of a record at the cursor. Containers may nest as
    /// deep as there are containers in the table: a chain that is longer
    /// holds a container inside itself.
    pub fn decode_fields(&mut self, fields: &[FieldDef]) -> (r: DecodedFields)
        ensures
            final(self).containers == old(self).containers,
            ({
                let rec = decode_fields_spec(
                    containers_view(old(self).containers@),
                    fields_view(fields@),
                    old(self).cursor.unread(),
                    old(self).containers@.len(),
                );
                &&& entries_view(r.fields@) == rec.fields
                &&& failures_view(r.failures@) == rec.failures
                &&& read_from(old(self).cursor, final(self).cursor, rec.consumed)
            }),
    {
        decode_fields(self.containers, fields, &mut self.cursor, self.containers.len())
    }

    /// Decodes one value of type `ty` at the cursor. Containers may nest as
    /// deep as there are containers in the table.
    pub fn decode_value(&mut self, ty: &ProtoType) -> (r: Result<DecodedValue, DecodeError>)
        ensures
            final(self).containers == old(self).containers,
            decodes_nested(
                old(self).cursor,
                final(self).cursor,
                r,
                decode_value_spec(
                    containers_view(old(self).containers@),
                    ty@,
                    old(self).cursor.unread(),
                    old(self).containers@.len(),
                ),
            ),
    {
        decode_value(self.containers, ty, &mut self.cursor, self.containers.len())
    }

    /// Reads a 32-bit variable-length integer at the cursor.
    pub fn read_varint32(&mut self) -> (r: Result<u32, DecodeError>)
        ensures
            final(self).containers == old(self).containers,
            match r {
                Ok(v) => varint32(old(self).cursor.unread()) matches Ok((value, n)) && v == value
                    && read_from(old(self).cursor, final(self).cursor, n),
                Err(e) => varint32(old(self).cursor.unread()) == Err::<(u32, nat), DecodeError>(e)
                    && final(self).cursor == old(self).cursor,
            },
    {
        self.cursor.read_varint32()
    }

    /// Reads a 64-bit variable-length integer at the cursor.
    pub fn read_varint64(&mut self) -> (r: Result<u64, DecodeError>)
        ensures
            final(self).containers == old(self).containers,
            match r {
                Ok(v) => varint64(old(self).cursor.unread()) matches Ok((value, n)) && v == value
                    && read_from(old(self).cursor, final(self).cursor, n),
                Err(e) => varint64(old(self).cursor.unread()) == Err::<(u64, nat), DecodeError>(e)
                    && final(self).cursor == old(self).cursor,
            },
    {
        self.cursor.read_varint64()
    }

    /// Reads a count of the given encoding at the cursor.
    pub fn read_count(&mut self, ct: &CountType) -> (r: Result<u32, DecodeError>)
        ensures
            final(self).containers == old(self).containers,
            match r {
                Ok(c) => count_value(*ct, old(self).cursor.unread()) matches Ok((count, n)) && c
                    == count && read_from(old(self).cursor, final(self).cursor, n),
                Err(e) => count_value(*ct, old(self).cursor.unread()) == Err::<
                    (u32, nat),
                    DecodeError,
                >(e) && final(self).cursor == old(self).cursor,
            },
    {
        read_count(&mut self.cursor, ct)
    }
}

} // verus!
