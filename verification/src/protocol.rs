//! The protocol schema in memory and the packet dispatcher: the leading
//! packet id selects a packet definition, whose fields are then decoded.

use vstd::prelude::*;
use crate::decoder::{decode_fields, decode_fields_spec};
use crate::packet_logger::PacketDirection;
use crate::resolver::{mapping_index, mapping_value, resolve_node, TypeResolver};
use crate::schema::{
    classify, entry_kind, is_meta, lemma_mapping_view, meta_name, pairs_view, EntryKind, NodeView,
    SchemaNode,
};
use crate::text::{chars_of, lower_text, names_view, str_eq, to_ascii_lower};
use crate::types::{FieldType, TypeView};
use crate::types::{
    containers_view, fields_view, ContainerDef, ContainerView, FieldDef, FieldView,
};
use crate::value::{entries_view, Value, ValueView};
use crate::wire::{varint32, Cursor, DecodeError};

verus! {

/// The directions in which a packet definition applies.
#[derive(Clone, Copy, Debug, PartialEq, Eq, Structural)]
pub enum PacketBound {
    Client,
    Server,
    Both,
}

impl PacketBound {
    /// The bound that a `!bound` text names, letters in either case; `both`
    /// where it names none.
    pub open spec fn of_text(t: Seq<char>) -> PacketBound {
        if lower_text(t) == "client"@ {
            PacketBound::Client
        } else if lower_text(t) == "server"@ {
            PacketBound::Server
        } else {
            PacketBound::Both
        }
    }

    /// Reads a bound from its name.
    pub fn from_str(s: &str) -> (r: Self)
        ensures
            r == Self::of_text(s@),
    {
        let lower = to_ascii_lower(s);
        if str_eq(lower.as_str(), "client") {
            PacketBound::Client
        } else if str_eq(lower.as_str(), "server") {
            PacketBound::Server
        } else {
            PacketBound::Both
        }
    }

    /// Whether a packet of this bound may travel in `direction`.
    pub open spec fn admits(self, direction: PacketDirection) -> bool {
        match self {
            PacketBound::Both => true,
            PacketBound::Client => direction == PacketDirection::Clientbound,
            PacketBound::Server => direction == PacketDirection::Serverbound,
        }
    }

    /// Whether a packet of this bound may travel in `direction`.
    pub fn allows(&self, direction: PacketDirection) -> (r: bool)
        ensures
            r == self.admits(direction),
    {
        match self {
            PacketBound::Both => true,
            PacketBound::Client => direction == PacketDirection::Clientbound,
            PacketBound::Server => direction == PacketDirection::Serverbound,
        }
    }
}

/// A packet definition: its id, name, bound and fields in wire order.
#[derive(Debug, PartialEq)]
pub struct PacketInfo {
    pub id: u32,
    pub name: String,
    pub bound: PacketBound,
    pub fields: Vec<FieldDef>,
}

/// The mathematical form of a `PacketInfo`.
pub struct PacketView {
    pub id: u32,
    pub name: Seq<char>,
    pub bound: PacketBound,
    pub fields: Seq<FieldView>,
}

impl View for PacketInfo {
    type V = PacketView;

    open spec fn view(&self) -> PacketView {
        PacketView {
            id: self.id,
            name: self.name@,
            bound: self.bound,
            fields: fields_view(self.fields@),
        }
    }
}

/// The views of a packet table, packet by packet.
pub open spec fn packets_view(packets: Seq<PacketInfo>) -> Seq<PacketView> {
    Seq::new(packets.len(), |i: int| packets[i]@)
}

/// The last definition with the given id, if there is one.
pub open spec fn find_packet(packets: Seq<PacketView>, id: u32) -> Option<PacketView>
    decreases packets.len(),
{
    if packets.len() == 0 {
        None
    } else if packets.last().id == id {
        Some(packets.last())
    } else {
        find_packet(packets.drop_last(), id)
    }
}

/// The last definition with the given id that applies in `direction`.
pub open spec fn find_packet_for(
    packets: Seq<PacketView>,
    id: u32,
    direction: PacketDirection,
) -> Option<PacketView>
    decreases packets.len(),
{
    if packets.len() == 0 {
        None
    } else if packets.last().id == id && packets.last().bound.admits(direction) {
        Some(packets.last())
    } else {
        find_packet_for(packets.drop_last(), id, direction)
    }
}

/// The packet id at the start of a datagram and the number of bytes it
/// takes: a 32-bit variable-length integer, or, where none can be read, the
/// first byte. An empty datagram has no id.
pub open spec fn packet_id_spec(data: Seq<u8>) -> Option<(u32, nat)> {
    if data.len() == 0 {
        None
    } else {
        match varint32(data) {
            Ok((id, n)) => Some((id, n)),
            Err(_) => Some((data[0] as u32, 1)),
        }
    }
}

/// Reads the packet id at the start of a datagram, with the number of bytes
/// it takes.
pub fn read_packet_id(data: &[u8]) -> (r: Option<(u32, usize)>)
    ensures
        match r {
            Some((id, n)) => packet_id_spec(data@) == Some((id, n as nat)) && 1 <= n
                <= data@.len(),
            None => packet_id_spec(data@) is None,
        },
{
    if data.len() == 0 {
        return None;
    }
    let mut cur = Cursor::new(data);
    match cur.read_varint32() {
        Ok(id) => {
            let n = cur.position();
            proof {
                crate::wire::lemma_varint_len_positive(data@, 5);
            }
            Some((id, n))
        },
        Err(_) => Some((data[0] as u32, 1)),
    }
}

/// A decoded packet: the id, the name of the definition that matched, the
/// fields in wire order, and the fields that failed to decode, in the packet
/// or in the containers inside it.
#[derive(Debug, PartialEq)]
pub struct DecodedPacket {
    pub packet_id: Option<u32>,
    pub packet_name: Option<String>,
    pub fields: Vec<(String, Value)>,
    pub partial_errors: Vec<(String, DecodeError)>,
}

/// The mathematical form of a `DecodedPacket`.
pub struct DecodedPacketView {
    pub packet_id: Option<u32>,
    pub packet_name: Option<Seq<char>>,
    pub fields: Seq<(Seq<char>, ValueView)>,
    pub partial_errors: Seq<(Seq<char>, DecodeError)>,
}

impl View for DecodedPacket {
    type V = DecodedPacketView;

    open spec fn view(&self) -> DecodedPacketView {
        DecodedPacketView {
            packet_id: self.packet_id,
            packet_name: match self.packet_name {
                Some(n) => Some(n@),
                None => None,
            },
            fields: entries_view(self.fields@),
            partial_errors: Seq::new(
                self.partial_errors@.len(),
                |i: int| (self.partial_errors@[i].0@, self.partial_errors@[i].1),
            ),
        }
    }
}

/// What decoding a datagram yields under the given tables.
pub open spec fn decode_packet_spec(
    packets: Seq<PacketView>,
    containers: Seq<ContainerView>,
    data: Seq<u8>,
    direction: PacketDirection,
) -> DecodedPacketView {
    match packet_id_spec(data) {
        None => DecodedPacketView {
            packet_id: None,
            packet_name: None,
            fields: Seq::empty(),
            partial_errors: Seq::empty(),
        },
        Some((id, n)) => match find_packet_for(packets, id, direction) {
            None => DecodedPacketView {
                packet_id: Some(id),
                packet_name: None,
                fields: Seq::empty(),
                partial_errors: Seq::empty(),
            },
            Some(info) => {
                let rec = decode_fields_spec(
                    containers,
                    info.fields,
                    data.skip(n as int),
                    containers.len(),
                );
                DecodedPacketView {
                    packet_id: Some(id),
                    packet_name: Some(info.name),
                    fields: rec.fields,
                    partial_errors: rec.failures,
                }
            },
        },
    }
}

/// A protocol schema: packet definitions and containers, with every type
/// expression resolved.
#[derive(Debug, PartialEq)]
pub struct ProtocolParser {
    pub protocol_version: String,
    pub packets: Vec<PacketInfo>,
    pub containers: Vec<ContainerDef>,
}

/// The path of the protocol document of a version.
pub open spec fn protocol_file_text(version: Seq<char>) -> Seq<char> {
    "data/protocol/proto-"@ + version + ".yml"@
}

impl ProtocolParser {
    /// The path of the protocol document of a version.
    pub fn protocol_file(version: &str) -> (r: String)
        ensures
            r@ == protocol_file_text(version@),
    {
        let mut r = String::from_str("data/protocol/proto-");
        r.append(version);
        r.append(".yml");
        r
    }

    /// The packet table, as plain values.
    pub open spec fn packet_table(&self) -> Seq<PacketView> {
        packets_view(self.packets@)
    }

    /// The container table, as plain values.
    pub open spec fn container_table(&self) -> Seq<ContainerView> {
        containers_view(self.containers@)
    }

    /// The version tag of the schema.
    pub fn version(&self) -> (r: &str)
        ensures
            r@ == self.protocol_version@,
    {
        self.protocol_version.as_str()
    }

    /// The number of packet definitions.
    pub fn packet_count(&self) -> (n: usize)
        ensures
            n == self.packets@.len(),
    {
        self.packets.len()
    }

    /// The last definition with the given id.
    pub fn get_packet_info(&self, id: u32) -> (r: Option<&PacketInfo>)
        ensures
            match r {
                Some(info) => find_packet(self.packet_table(), id) == Some(info@),
                None => find_packet(self.packet_table(), id) is None,
            },
    {
        let ghost all = self.packet_table();
        let mut i: usize = self.packets.len();
        proof {
            assert(all.take(i as int) == all);
        }
        while i > 0
            invariant
                i <= self.packets@.len(),
                all == self.packet_table(),
                find_packet(all, id) == find_packet(all.take(i as int), id),
            decreases i,
        {
            i -= 1;
            proof {
                assert(all.take(i + 1).drop_last() == all.take(i as int));
            }
            if self.packets[i].id == id {
                return Some(&self.packets[i]);
            }
        }
        None
    }

    /// The last definition with the given id that applies in `direction`.
    pub fn lookup(&self, id: u32, direction: PacketDirection) -> (r: Option<&PacketInfo>)
        ensures
            match r {
                Some(info) => find_packet_for(self.packet_table(), id, direction) == Some(info@),
                None => find_packet_for(self.packet_table(), id, direction) is None,
            },
    {
        let ghost all = self.packet_table();
        let mut i: usize = self.packets.len();
        proof {
            assert(all.take(i as int) == all);
        }
        while i > 0
            invariant
                i <= self.packets@.len(),
                all == self.packet_table(),
                find_packet_for(all, id, direction) == find_packet_for(
                    all.take(i as int),
                    id,
                    direction,
                ),
            decreases i,
        {
            i -= 1;
            proof {
                assert(all.take(i + 1).drop_last() == all.take(i as int));
            }
            if self.packets[i].id == id && self.packets[i].bound.allows(direction) {
                return Some(&self.packets[i]);
            }
        }
        None
    }

    /// The packet id at the start of a datagram.
    pub fn extract_packet_id(&self, data: &[u8]) -> (r: Option<u32>)
        ensures
            match r {
                Some(id) => packet_id_spec(data@) matches Some(p) && p.0 == id,
                None => packet_id_spec(data@) is None,
            },
    {
        match read_packet_id(data) {
            Some((id, _n)) => Some(id),
            None => None,
        }
    }

    /// Decodes a datagram: the packet id, then the fields of the definition
    /// that the id and the direction select. Containers may nest as deep as
    /// there are containers in the schema. Field errors end up as markers in
    /// the result; the call itself never fails.
    #[verifier::rlimit(40)]
    pub fn decode_packet(&self, data: &[u8], direction: PacketDirection) -> (r: DecodedPacket)
        ensures
            r@ == decode_packet_spec(self.packet_table(), self.container_table(), data@, direction),
    {
        let (id, n) = match read_packet_id(data) {
            None => {
                let r = DecodedPacket {
                    packet_id: None,
                    packet_name: None,
                    fields: Vec::new(),
                    partial_errors: Vec::new(),
                };
                proof {
                    assert(r@.fields =~= Seq::empty());
                    assert(r@.partial_errors =~= Seq::empty());
                }
                return r;
            },
            Some(p) => p,
        };
        match self.lookup(id, direction) {
            None => {
                let r = DecodedPacket {
                    packet_id: Some(id),
                    packet_name: None,
                    fields: Vec::new(),
                    partial_errors: Vec::new(),
                };
                proof {
                    assert(r@.fields =~= Seq::empty());
                    assert(r@.partial_errors =~= Seq::empty());
                }
                r
            },
            Some(info) => {
                let body = vstd::slice::slice_subrange(data, n, data.len());
                let mut cur = Cursor::new(body);
                let rec = decode_fields(
                    self.containers.as_slice(),
                    info.fields.as_slice(),
                    &mut cur,
                    self.containers.len(),
                );
                let r = DecodedPacket {
                    packet_id: Some(id),
                    packet_name: Some(info.name.clone()),
                    fields: rec.fields,
                    partial_errors: rec.failures,
                };
                proof {
                    assert(body@ == data@.skip(n as int));
                    let spec = decode_packet_spec(
                        self.packet_table(),
                        self.container_table(),
                        data@,
                        direction,
                    );
                    assert(r@.partial_errors =~= spec.partial_errors);
                }
                r
            },
        }
    }
}

/// Why a protocol document could not be loaded.
#[derive(Clone, Copy, Debug, PartialEq, Eq, Structural)]
pub enum SchemaError {
    /// A packet's `!id` is a text that is no hexadecimal 32-bit number.
    InvalidPacketId,
    /// An alias leads back to itself.
    CyclicAlias,
}

/// The value of a hexadecimal digit, in either case.
pub open spec fn hex_digit_value(c: char) -> Option<nat> {
    if '0' <= c && c <= '9' {
        Some((c as u8 - 48) as nat)
    } else if 'a' <= c && c <= 'f' {
        Some((c as u8 - 87) as nat)
    } else if 'A' <= c && c <= 'F' {
        Some((c as u8 - 55) as nat)
    } else {
        None
    }
}

/// Whether every character is a hexadecimal digit.
pub open spec fn all_hex(d: Seq<char>) -> bool {
    forall|i: int| 0 <= i < d.len() ==> hex_digit_value(#[trigger] d[i]) is Some
}

/// The number that hexadecimal digits stand for.
pub open spec fn hex_value(d: Seq<char>) -> nat
    decreases d.len(),
{
    if d.len() == 0 {
        0
    } else {
        16 * hex_value(d.drop_last()) + match hex_digit_value(d.last()) {
            Some(v) => v,
            None => 0,
        }
    }
}

/// A text without the `0x` that it starts with, however often it is repeated.
pub open spec fn strip_hex_prefix(t: Seq<char>) -> Seq<char>
    decreases t.len(),
{
    if t.len() >= 2 && t[0] == '0' && t[1] == 'x' {
        strip_hex_prefix(t.skip(2))
    } else {
        t
    }
}

/// The packet id that a text stands for: hexadecimal digits, after an
/// optional `0x` and an optional plus sign, that make a 32-bit number.
pub open spec fn packet_id_text(t: Seq<char>) -> Option<u32> {
    let s = strip_hex_prefix(t);
    let d = if s.len() > 0 && s[0] == '+' {
        s.skip(1)
    } else {
        s
    };
    if d.len() > 0 && all_hex(d) && hex_value(d) <= u32::MAX {
        Some(hex_value(d) as u32)
    } else {
        None
    }
}

proof fn lemma_hex_value_grows(d: Seq<char>, i: int)
    requires
        0 <= i <= d.len(),
    ensures
        hex_value(d.take(i)) <= hex_value(d),
    decreases d.len() - i,
{
    if i < d.len() {
        lemma_hex_value_grows(d, i + 1);
        assert(d.take(i + 1).drop_last() == d.take(i));
    } else {
        assert(d.take(i) == d);
    }
}

/// Reads a packet id from its text.
#[verifier::rlimit(40)]
pub fn parse_packet_id(text: &str) -> (r: Option<u32>)
    ensures
        r == packet_id_text(text@),
{
    let chars = chars_of(text);
    let n = chars.len();
    let mut start: usize = 0;
    proof {
        assert(chars@.skip(0) == chars@);
    }
    while n - start >= 2 && chars[start] == '0' && chars[start + 1] == 'x'
        invariant
            start <= n,
            n == chars@.len(),
            strip_hex_prefix(chars@) == strip_hex_prefix(chars@.skip(start as int)),
        decreases n - start,
    {
        proof {
            assert(chars@.skip(start as int).skip(2) == chars@.skip(start + 2));
        }
        start += 2;
    }
    let ghost s = chars@.skip(start as int);
    assert(strip_hex_prefix(s) == s);
    if start < n && chars[start] == '+' {
        proof {
            assert(s.skip(1) == chars@.skip(start + 1));
        }
        start += 1;
    }
    let ghost d = chars@.skip(start as int);
    if start >= n {
        return None;
    }
    let mut acc: u64 = 0;
    let mut i: usize = start;
    proof {
        assert(d.take(0) =~= Seq::empty());
    }
    let ghost expected = if all_hex(d) && hex_value(d) <= u32::MAX {
        Some(hex_value(d) as u32)
    } else {
        None
    };
    assert(packet_id_text(text@) == expected);
    while i < n
        invariant
            start <= i <= n,
            n == chars@.len(),
            d == chars@.skip(start as int),
            packet_id_text(text@) == expected,
            expected == if all_hex(d) && hex_value(d) <= u32::MAX {
                Some(hex_value(d) as u32)
            } else {
                None
            },
            all_hex(d.take(i - start)),
            acc == hex_value(d.take(i - start)),
            acc <= u32::MAX,
        decreases n - i,
    {
        let c = chars[i];
        let digit: u64 = if '0' <= c && c <= '9' {
            (c as u8 - 48) as u64
        } else if 'a' <= c && c <= 'f' {
            (c as u8 - 87) as u64
        } else if 'A' <= c && c <= 'F' {
            (c as u8 - 55) as u64
        } else {
            proof {
                assert(d[i - start] == c);
                assert(hex_digit_value(d[i - start]) is None);
                assert(!all_hex(d));
            }
            return None;
        };
        proof {
            let next = d.take(i - start + 1);
            assert(next.drop_last() == d.take(i - start));
            assert(next.last() == c);
            assert forall|j: int| 0 <= j < next.len() implies hex_digit_value(
                #[trigger] next[j],
            ) is Some by {
                if j < i - start {
                    assert(d.take(i - start)[j] == next[j]);
                }
            }
        }
        let next_acc = 16 * acc + digit;
        proof {
            assert(hex_digit_value(c) == Some(digit as nat));
            assert(next_acc == hex_value(d.take(i - start + 1)));
        }
        if next_acc > 0xffff_ffff {
            proof {
                lemma_hex_value_grows(d, i - start + 1);
            }
            return None;
        }
        acc = next_acc;
        i += 1;
    }
    proof {
        assert(d.take(n - start) == d);
    }
    Some(acc as u32)
}

/// The fields that a mapping defines: its string keys that are not
/// metadata, each with what its type expression resolves to.
pub open spec fn field_defs(
    doc: Seq<(NodeView, NodeView)>,
    entries: Seq<(NodeView, NodeView)>,
) -> Seq<FieldView>
    decreases entries.len(),
{
    if entries.len() == 0 {
        Seq::empty()
    } else {
        let rest = field_defs(doc, entries.drop_first());
        match entries[0].0 {
            NodeView::Str(k) => if is_meta(k) {
                rest
            } else {
                seq![FieldView { name: k, ty: resolve_node(doc, entries[0].1, Seq::empty()) }]
                    + rest
            },
            _ => rest,
        }
    }
}

/// Resolves the fields that a mapping defines.
pub fn parse_fields(resolver: &TypeResolver, entries: &[(SchemaNode, SchemaNode)]) -> (r: Vec<
    FieldDef,
>)
    ensures
        fields_view(r@) == field_defs(resolver.entries(), pairs_view(entries@)),
{
    let ghost doc = resolver.entries();
    let ghost all = pairs_view(entries@);
    let mut out: Vec<FieldDef> = Vec::new();
    let mut i: usize = 0;
    proof {
        assert(all.skip(0) == all);
        assert(fields_view(out@) + field_defs(doc, all) =~= field_defs(doc, all));
    }
    while i < entries.len()
        invariant
            i <= entries@.len(),
            doc == resolver.entries(),
            all == pairs_view(entries@),
            field_defs(doc, all) == fields_view(out@) + field_defs(doc, all.skip(i as int)),
        decreases entries.len() - i,
    {
        proof {
            assert(all.skip(i as int).drop_first() == all.skip(i + 1));
        }
        match &entries[i].0 {
            SchemaNode::Str(k) => {
                if !meta_name(k.as_str()) {
                    let ty = match resolver.parse_type(&entries[i].1) {
                        Ok(t) => FieldType::Known(t),
                        Err(e) => FieldType::Unresolved(e),
                    };
                    let ghost head = fields_view(out@);
                    let field = FieldDef { name: k.clone(), ty };
                    out.push(field);
                    proof {
                        let rest = field_defs(doc, all.skip(i + 1));
                        assert(fields_view(out@) =~= head.push(field@));
                        assert(head + (seq![field@] + rest) =~= head.push(field@) + rest);
                    }
                }
            },
            _ => {},
        }
        i += 1;
    }
    proof {
        assert(fields_view(out@) + Seq::<FieldView>::empty() =~= fields_view(out@));
    }
    out
}

/// The packet that a top-level entry `name: entries` defines. A packet
/// without an `!id` is left out; an `!id` text that is no number is an error.
pub open spec fn packet_def(
    doc: Seq<(NodeView, NodeView)>,
    name: Seq<char>,
    entries: Seq<(NodeView, NodeView)>,
) -> Result<Option<PacketView>, SchemaError> {
    let bound = match mapping_value(entries, "!bound"@) {
        Some(NodeView::Str(t)) => PacketBound::of_text(t),
        _ => PacketBound::Both,
    };
    let id = match mapping_value(entries, "!id"@) {
        Some(NodeView::Str(t)) => match packet_id_text(t) {
            Some(id) => Ok(Some(id)),
            None => Err(SchemaError::InvalidPacketId),
        },
        Some(NodeView::UInt(n)) => Ok(Some((n % 0x1_0000_0000) as u32)),
        _ => Ok(None),
    };
    match id {
        Err(e) => Err(e),
        Ok(None) => Ok(None),
        Ok(Some(id)) => Ok(Some(PacketView { id, name, bound, fields: field_defs(doc, entries) })),
    }
}

/// Reads the packet that a top-level entry defines.
pub fn parse_packet(
    resolver: &TypeResolver,
    name: &String,
    entries: &[(SchemaNode, SchemaNode)],
) -> (r: Result<Option<PacketInfo>, SchemaError>)
    ensures
        match r {
            Ok(Some(p)) => packet_def(resolver.entries(), name@, pairs_view(entries@)) == Ok::<
                Option<PacketView>,
                SchemaError,
            >(Some(p@)),
            Ok(None) => packet_def(resolver.entries(), name@, pairs_view(entries@)) == Ok::<
                Option<PacketView>,
                SchemaError,
            >(None),
            Err(e) => packet_def(resolver.entries(), name@, pairs_view(entries@)) == Err::<
                Option<PacketView>,
                SchemaError,
            >(e),
        },
{
    let bound = match mapping_index(entries, "!bound") {
        Some(i) => match &entries[i].1 {
            SchemaNode::Str(t) => PacketBound::from_str(t.as_str()),
            _ => PacketBound::Both,
        },
        None => PacketBound::Both,
    };
    let id = match mapping_index(entries, "!id") {
        Some(i) => match &entries[i].1 {
            SchemaNode::Str(t) => match parse_packet_id(t.as_str()) {
                Some(id) => id,
                None => {
                    return Err(SchemaError::InvalidPacketId);
                },
            },
            SchemaNode::UInt(n) => (*n % 0x1_0000_0000) as u32,
            _ => {
                return Ok(None);
            },
        },
        None => {
            return Ok(None);
        },
    };
    let fields = parse_fields(resolver, entries);
    Ok(Some(PacketInfo { id, name: name.clone(), bound, fields }))
}

/// The tables that a protocol document defines.
pub struct SchemaView {
    pub packets: Seq<PacketView>,
    pub containers: Seq<ContainerView>,
}

/// The tables after the entries `rest` of the document `doc`, or the first
/// error in document order: an invalid packet id, or an alias that leads
/// back to itself.
pub open spec fn load_entries(
    doc: Seq<(NodeView, NodeView)>,
    rest: Seq<(NodeView, NodeView)>,
) -> Result<SchemaView, SchemaError>
    decreases rest.len(),
{
    if rest.len() == 0 {
        Ok(SchemaView { packets: Seq::empty(), containers: Seq::empty() })
    } else {
        let key = rest[0].0;
        let value = rest[0].1;
        let tail = load_entries(doc, rest.drop_first());
        match entry_kind(key, value) {
            EntryKind::Ignored => tail,
            EntryKind::Packet => match packet_def(doc, key->Str_0, value->Mapping_0) {
                Err(e) => Err(e),
                Ok(None) => tail,
                Ok(Some(p)) => match tail {
                    Err(e) => Err(e),
                    Ok(t) => Ok(
                        SchemaView { packets: seq![p] + t.packets, containers: t.containers },
                    ),
                },
            },
            EntryKind::Container => match tail {
                Err(e) => Err(e),
                Ok(t) => Ok(
                    SchemaView {
                        packets: t.packets,
                        containers: seq![
                            ContainerView {
                                name: key->Str_0,
                                fields: field_defs(doc, value->Mapping_0),
                            },
                        ] + t.containers,
                    },
                ),
            },
            EntryKind::Alias => if resolve_node(doc, value, seq![key->Str_0]) == Err::<
                TypeView,
                DecodeError,
            >(DecodeError::CyclicAlias) {
                Err(SchemaError::CyclicAlias)
            } else {
                tail
            },
        }
    }
}

/// The tables that a document defines. A document that is no mapping
/// defines nothing.
pub open spec fn schema_of(doc: NodeView) -> Result<SchemaView, SchemaError> {
    match doc {
        NodeView::Mapping(entries) => load_entries(entries, entries),
        _ => Ok(SchemaView { packets: Seq::empty(), containers: Seq::empty() }),
    }
}

/// Tables read so far, followed by what the rest of the document defines.
pub open spec fn join_schema(
    packets: Seq<PacketView>,
    containers: Seq<ContainerView>,
    rest: Result<SchemaView, SchemaError>,
) -> Result<SchemaView, SchemaError> {
    match rest {
        Err(e) => Err(e),
        Ok(t) => Ok(
            SchemaView { packets: packets + t.packets, containers: containers + t.containers },
        ),
    }
}

impl ProtocolParser {
    /// Builds the schema from a parsed protocol document, resolving every
    /// type expression once.
    #[verifier::rlimit(40)]
    pub fn from_document(doc: &SchemaNode, version: &str) -> (r: Result<Self, SchemaError>)
        ensures
            match r {
                Ok(p) => schema_of(doc@) matches Ok(s) && p.packet_table() == s.packets
                    && p.container_table() == s.containers && p.protocol_version@ == version@,
                Err(e) => schema_of(doc@) matches Err(f) && e == f,
            },
    {
        let mut packets: Vec<PacketInfo> = Vec::new();
        let mut containers: Vec<ContainerDef> = Vec::new();
        match doc {
            SchemaNode::Mapping(entries) => {
                proof {
                    lemma_mapping_view(*entries);
                }
                let resolver = TypeResolver::new(entries.as_slice());
                let ghost all = pairs_view(entries@);
                let mut i: usize = 0;
                proof {
                    assert(all.skip(0) == all);
                    assert(packets_view(packets@) =~= Seq::empty());
                    assert(containers_view(containers@) =~= Seq::empty());
                    match load_entries(all, all) {
                        Ok(t) => {
                            assert(Seq::<PacketView>::empty() + t.packets =~= t.packets);
                            assert(Seq::<ContainerView>::empty() + t.containers =~= t.containers);
                        },
                        Err(_) => {},
                    }
                }
                while i < entries.len()
                    invariant
                        i <= entries@.len(),
                        all == pairs_view(entries@),
                        doc@ == NodeView::Mapping(all),
                        resolver.doc@ == entries@,
                        load_entries(all, all) == join_schema(
                            packets_view(packets@),
                            containers_view(containers@),
                            load_entries(all, all.skip(i as int)),
                        ),
                    decreases entries.len() - i,
                {
                    let ghost ps = packets_view(packets@);
                    let ghost cs = containers_view(containers@);
                    let ghost tail = load_entries(all, all.skip(i + 1));
                    proof {
                        assert(all.skip(i as int).drop_first() == all.skip(i + 1));
                    }
                    let key = &entries[i].0;
                    let value = &entries[i].1;
                    proof {
                        assert(all.skip(i as int)[0] == (key@, value@));
                        assert(resolver.entries() == all);
                    }
                    match classify(key, value) {
                        EntryKind::Ignored => {},
                        EntryKind::Packet => match (key, value) {
                            (SchemaNode::Str(name), SchemaNode::Mapping(body)) => {
                                proof {
                                    lemma_mapping_view(*body);
                                }
                                match parse_packet(&resolver, name, body.as_slice()) {
                                    Err(e) => {
                                        return Err(e);
                                    },
                                    Ok(None) => {},
                                    Ok(Some(p)) => {
                                        packets.push(p);
                                        proof {
                                            assert(packets_view(packets@) =~= ps.push(p@));
                                            match tail {
                                                Ok(t) => {
                                                    assert(ps + (seq![p@] + t.packets) =~= ps.push(
                                                        p@,
                                                    ) + t.packets);
                                                },
                                                Err(_) => {},
                                            }
                                        }
                                    },
                                }
                            },
                            _ => {},
                        },
                        EntryKind::Container => match (key, value) {
                            (SchemaNode::Str(name), SchemaNode::Mapping(body)) => {
                                proof {
                                    lemma_mapping_view(*body);
                                }
                                let fields = parse_fields(&resolver, body.as_slice());
                                let c = ContainerDef { name: name.clone(), fields };
                                containers.push(c);
                                proof {
                                    assert(containers_view(containers@) =~= cs.push(c@));
                                    match tail {
                                        Ok(t) => {
                                            assert(cs + (seq![c@] + t.containers) =~= cs.push(c@)
                                                + t.containers);
                                        },
                                        Err(_) => {},
                                    }
                                }
                            },
                            _ => {},
                        },
                        EntryKind::Alias => match key {
                            SchemaNode::Str(name) => {
                                let mut visited: Vec<String> = Vec::new();
                                visited.push(name.clone());
                                proof {
                                    assert(names_view(visited@) =~= seq![name@]);
                                }
                                match resolver.resolve(value, &mut visited) {
                                    Err(DecodeError::CyclicAlias) => {
                                        return Err(SchemaError::CyclicAlias);
                                    },
                                    _ => {},
                                }
                            },
                            _ => {},
                        },
                    }
                    i += 1;
                }
                proof {
                    assert(packets_view(packets@) + Seq::<PacketView>::empty() =~= packets_view(
                        packets@,
                    ));
                    assert(containers_view(containers@) + Seq::<ContainerView>::empty()
                        =~= containers_view(containers@));
                }
            },
            _ => {
                proof {
                    assert(packets_view(packets@) =~= Seq::empty());
                    assert(containers_view(containers@) =~= Seq::empty());
                }
            },
        }
        Ok(ProtocolParser { protocol_version: String::from_str(version), packets, containers })
    }
}

} // verus!
