//! The type resolver: from the type expressions of a protocol document to
//! resolved wire types, following aliases with protection against cycles.

use vstd::prelude::*;
use crate::schema::{
    entry_index, entry_value, has_prefix, lemma_mapping_view, lemma_sequence_view, pairs_view,
    starts_with, EntryKind, NodeView, SchemaNode,
};
use crate::text::{chars_of, moved, names_view, str_eq, string_of};
use crate::types::{CountType, ProtoType, TypeView};
use crate::wire::DecodeError;

verus! {

/// The count type that a keyword names.
pub open spec fn count_keyword(t: Seq<char>) -> Option<CountType> {
    if t == "varint"@ {
        Some(CountType::VarInt)
    } else if t == "zigzag32"@ {
        Some(CountType::ZigZag32)
    } else if t == "li16"@ {
        Some(CountType::LI16)
    } else if t == "li32"@ {
        Some(CountType::LI32)
    } else if t == "li64"@ {
        Some(CountType::LI64)
    } else if t == "lu16"@ {
        Some(CountType::LU16)
    } else if t == "lu32"@ {
        Some(CountType::LU32)
    } else {
        None
    }
}

/// The count type that a keyword names.
pub fn count_of_keyword(t: &str) -> (r: Option<CountType>)
    ensures
        r == count_keyword(t@),
{
    if str_eq(t, "varint") {
        Some(CountType::VarInt)
    } else if str_eq(t, "zigzag32") {
        Some(CountType::ZigZag32)
    } else if str_eq(t, "li16") {
        Some(CountType::LI16)
    } else if str_eq(t, "li32") {
        Some(CountType::LI32)
    } else if str_eq(t, "li64") {
        Some(CountType::LI64)
    } else if str_eq(t, "lu16") {
        Some(CountType::LU16)
    } else if str_eq(t, "lu32") {
        Some(CountType::LU32)
    } else {
        None
    }
}

/// The fixed-width and variable-length number types that a keyword names.
pub open spec fn number_keyword(t: Seq<char>) -> Option<TypeView> {
    if t == "i8"@ {
        Some(TypeView::I8)
    } else if t == "u8"@ {
        Some(TypeView::U8)
    } else if t == "i16"@ {
        Some(TypeView::I16)
    } else if t == "u16"@ {
        Some(TypeView::U16)
    } else if t == "i32"@ {
        Some(TypeView::I32)
    } else if t == "u32"@ {
        Some(TypeView::U32)
    } else if t == "i64"@ {
        Some(TypeView::I64)
    } else if t == "u64"@ {
        Some(TypeView::U64)
    } else if t == "f32"@ {
        Some(TypeView::F32)
    } else if t == "f64"@ {
        Some(TypeView::F64)
    } else if t == "bool"@ {
        Some(TypeView::Bool)
    } else if t == "varint"@ || t == "varint32"@ {
        Some(TypeView::VarInt32)
    } else if t == "varint64"@ {
        Some(TypeView::VarInt64)
    } else if t == "zigzag32"@ {
        Some(TypeView::ZigZag32)
    } else if t == "zigzag64"@ {
        Some(TypeView::ZigZag64)
    } else if t == "li16"@ {
        Some(TypeView::LI16)
    } else if t == "li32"@ {
        Some(TypeView::LI32)
    } else if t == "li64"@ {
        Some(TypeView::LI64)
    } else if t == "lu16"@ {
        Some(TypeView::LU16)
    } else if t == "lu32"@ {
        Some(TypeView::LU32)
    } else if t == "lu64"@ {
        Some(TypeView::LU64)
    } else {
        None
    }
}

/// The primitive type that a keyword names.
pub open spec fn keyword_type(t: Seq<char>) -> Option<TypeView> {
    if number_keyword(t) is Some {
        number_keyword(t)
    } else if t == "string"@ {
        Some(TypeView::String(CountType::VarInt))
    } else if t == "LittleString"@ {
        Some(TypeView::LittleString)
    } else if t == "ShortString"@ {
        Some(TypeView::ShortString)
    } else if t == "LatinString"@ {
        Some(TypeView::LatinString)
    } else if t == "uuid"@ {
        Some(TypeView::UUID)
    } else if t == "vec2f"@ {
        Some(TypeView::Vec2F)
    } else if t == "vec3f"@ {
        Some(TypeView::Vec3F)
    } else if t == "restBuffer"@ {
        Some(TypeView::RestBuffer)
    } else {
        None
    }
}

/// The number type that a keyword names.
pub fn number_of_keyword(t: &str) -> (r: Option<ProtoType>)
    ensures
        match r {
            Some(ty) => number_keyword(t@) == Some(ty@),
            None => number_keyword(t@) is None,
        },
{
    if str_eq(t, "i8") {
        Some(ProtoType::I8)
    } else if str_eq(t, "u8") {
        Some(ProtoType::U8)
    } else if str_eq(t, "i16") {
        Some(ProtoType::I16)
    } else if str_eq(t, "u16") {
        Some(ProtoType::U16)
    } else if str_eq(t, "i32") {
        Some(ProtoType::I32)
    } else if str_eq(t, "u32") {
        Some(ProtoType::U32)
    } else if str_eq(t, "i64") {
        Some(ProtoType::I64)
    } else if str_eq(t, "u64") {
        Some(ProtoType::U64)
    } else if str_eq(t, "f32") {
        Some(ProtoType::F32)
    } else if str_eq(t, "f64") {
        Some(ProtoType::F64)
    } else if str_eq(t, "bool") {
        Some(ProtoType::Bool)
    } else if str_eq(t, "varint") || str_eq(t, "varint32") {
        Some(ProtoType::VarInt32)
    } else if str_eq(t, "varint64") {
        Some(ProtoType::VarInt64)
    } else if str_eq(t, "zigzag32") {
        Some(ProtoType::ZigZag32)
    } else if str_eq(t, "zigzag64") {
        Some(ProtoType::ZigZag64)
    } else if str_eq(t, "li16") {
        Some(ProtoType::LI16)
    } else if str_eq(t, "li32") {
        Some(ProtoType::LI32)
    } else if str_eq(t, "li64") {
        Some(ProtoType::LI64)
    } else if str_eq(t, "lu16") {
        Some(ProtoType::LU16)
    } else if str_eq(t, "lu32") {
        Some(ProtoType::LU32)
    } else if str_eq(t, "lu64") {
        Some(ProtoType::LU64)
    } else {
        None
    }
}

/// The primitive type that a keyword names.
pub fn type_of_keyword(t: &str) -> (r: Option<ProtoType>)
    ensures
        match r {
            Some(ty) => keyword_type(t@) == Some(ty@),
            None => keyword_type(t@) is None,
        },
{
    match number_of_keyword(t) {
        Some(ty) => Some(ty),
        None => {
            if str_eq(t, "string") {
                Some(ProtoType::String(CountType::VarInt))
            } else if str_eq(t, "LittleString") {
                Some(ProtoType::LittleString)
            } else if str_eq(t, "ShortString") {
                Some(ProtoType::ShortString)
            } else if str_eq(t, "LatinString") {
                Some(ProtoType::LatinString)
            } else if str_eq(t, "uuid") {
                Some(ProtoType::UUID)
            } else if str_eq(t, "vec2f") {
                Some(ProtoType::Vec2F)
            } else if str_eq(t, "vec3f") {
                Some(ProtoType::Vec3F)
            } else if str_eq(t, "restBuffer") {
                Some(ProtoType::RestBuffer)
            } else {
                None
            }
        },
    }
}

/// The index of the first `[]` in `text`.
pub open spec fn first_brackets(text: Seq<char>) -> Option<int>
    decreases text.len(),
{
    if text.len() < 2 {
        None
    } else if text[0] == '[' && text[1] == ']' {
        Some(0)
    } else {
        match first_brackets(text.drop_first()) {
            Some(i) => Some(i + 1),
            None => None,
        }
    }
}

/// The index of the first `[]` in `text`.
pub fn find_brackets(text: &[char]) -> (r: Option<usize>)
    ensures
        match r {
            Some(i) => first_brackets(text@) == Some(i as int) && i + 2 <= text@.len(),
            None => first_brackets(text@) is None,
        },
{
    let mut i: usize = 0;
    proof {
        assert(text@.skip(0) == text@);
    }
    while text.len() - i >= 2
        invariant
            i <= text@.len(),
            first_brackets(text@) == moved(first_brackets(text@.skip(i as int)), i as int),
        decreases text.len() - i,
    {
        proof {
            assert(text@.skip(i as int).drop_first() == text@.skip(i + 1));
        }
        if text[i] == '[' && text[i + 1] == ']' {
            return Some(i);
        }
        i += 1;
    }
    None
}

/// The count type after the brackets of an array expression; varint where
/// the text names none.
pub open spec fn suffix_count(t: Seq<char>) -> CountType {
    match count_keyword(t) {
        Some(c) => c,
        None => CountType::VarInt,
    }
}

/// The value under the string key `name` of a mapping, if it has that key.
pub open spec fn mapping_value(entries: Seq<(NodeView, NodeView)>, name: Seq<char>) -> Option<
    NodeView,
>
    decreases entries.len(),
{
    if entries.len() == 0 {
        None
    } else if entries[0].0 == NodeView::Str(name) {
        Some(entries[0].1)
    } else {
        mapping_value(entries.drop_first(), name)
    }
}

/// Looks up the string key `name` in a mapping; the result is the index of
/// its first entry.
pub fn mapping_index(entries: &[(SchemaNode, SchemaNode)], name: &str) -> (r: Option<usize>)
    ensures
        match r {
            Some(i) => i < entries@.len() && mapping_value(pairs_view(entries@), name@) == Some(
                entries@[i as int].1@,
            ),
            None => mapping_value(pairs_view(entries@), name@) is None,
        },
{
    let ghost all = pairs_view(entries@);
    let mut i: usize = 0;
    proof {
        assert(all.skip(0) == all);
    }
    while i < entries.len()
        invariant
            i <= entries@.len(),
            all == pairs_view(entries@),
            mapping_value(all, name@) == mapping_value(all.skip(i as int), name@),
        decreases entries.len() - i,
    {
        proof {
            assert(all.skip(i as int).drop_first() == all.skip(i + 1));
        }
        let is_name = match &entries[i].0 {
            SchemaNode::Str(k) => str_eq(k.as_str(), name),
            _ => false,
        };
        if is_name {
            return Some(i);
        }
        i += 1;
    }
    None
}

/// The count type that the options of a buffer or string name: the
/// `countType` of a mapping, which must be a known keyword; varint where the
/// node is no mapping or names none.
pub open spec fn node_count(node: NodeView) -> Result<CountType, DecodeError> {
    match node {
        NodeView::Mapping(entries) => match mapping_value(entries, "countType"@) {
            Some(NodeView::Str(t)) => match count_keyword(t) {
                Some(c) => Ok(c),
                None => Err(DecodeError::UnknownType),
            },
            _ => Ok(CountType::VarInt),
        },
        _ => Ok(CountType::VarInt),
    }
}

/// Reads the count type from the options of a buffer or string.
pub fn parse_count_type(node: &SchemaNode) -> (r: Result<CountType, DecodeError>)
    ensures
        r == node_count(node@),
{
    match node {
        SchemaNode::Mapping(entries) => {
            proof {
                lemma_mapping_view(*entries);
            }
            match mapping_index(entries.as_slice(), "countType") {
                Some(i) => match &entries[i].1 {
                    SchemaNode::Str(t) => match count_of_keyword(t.as_str()) {
                        Some(c) => Ok(c),
                        None => Err(DecodeError::UnknownType),
                    },
                    _ => Ok(CountType::VarInt),
                },
                None => Ok(CountType::VarInt),
            }
        },
        _ => Ok(CountType::VarInt),
    }
}

/// The count type of the optional second element of a sequence expression.
pub open spec fn options_count(items: Seq<NodeView>) -> Result<CountType, DecodeError> {
    if items.len() >= 2 {
        node_count(items[1])
    } else {
        Ok(CountType::VarInt)
    }
}

impl NodeView {
    /// How many `[head, inner]` sequences are nested in second position.
    pub open spec fn nesting(self) -> nat
        decreases self,
    {
        match self {
            NodeView::Sequence(items) => if items.len() >= 2 {
                1 + items[1].nesting()
            } else {
                0
            },
            _ => 0,
        }
    }
}

/// The wire type that a type expression stands for. `doc` holds the
/// top-level entries of the document, and `visited` the aliases on the way
/// to this expression. An alias that is met again is a cycle.
pub open spec fn resolve_node(
    doc: Seq<(NodeView, NodeView)>,
    node: NodeView,
    visited: Seq<Seq<char>>,
) -> Result<TypeView, DecodeError>
    decreases doc.len() - visited.len(), node.nesting(), 1nat, 0nat,
{
    match node {
        NodeView::Str(text) => resolve_name(doc, text, visited),
        NodeView::Sequence(items) => if items.len() == 0 {
            Err(DecodeError::UnknownType)
        } else {
            match items[0] {
                NodeView::Str(head) => if head == "buffer"@ || head == "Buffer"@ {
                    match options_count(items) {
                        Ok(c) => Ok(TypeView::Buffer(c)),
                        Err(e) => Err(e),
                    }
                } else if head == "pstring"@ {
                    match options_count(items) {
                        Ok(c) => Ok(TypeView::String(c)),
                        Err(e) => Err(e),
                    }
                } else if head == "encapsulated"@ {
                    if items.len() >= 2 {
                        match resolve_node(doc, items[1], visited) {
                            Ok(inner) => Ok(TypeView::Encapsulated(Box::new(inner))),
                            Err(e) => Err(e),
                        }
                    } else {
                        Err(DecodeError::UnknownType)
                    }
                } else {
                    Err(DecodeError::UnknownType)
                },
                _ => Err(DecodeError::UnknownType),
            }
        },
        _ => Err(DecodeError::UnknownType),
    }
}

/// The wire type that a type expression written as text stands for: an
/// array `T[]count`, a native type `native:tag`, a primitive keyword, an
/// alias, or a container, tried in this order.
pub open spec fn resolve_name(
    doc: Seq<(NodeView, NodeView)>,
    text: Seq<char>,
    visited: Seq<Seq<char>>,
) -> Result<TypeView, DecodeError>
    decreases doc.len() - visited.len(), 0nat, 0nat, text.len(),
{
    match first_brackets(text) {
        Some(pos) => if 0 <= pos && pos + 2 <= text.len() {
            match resolve_name(doc, text.take(pos), visited) {
                Ok(elem) => Ok(TypeView::Array(Box::new(elem), suffix_count(text.skip(pos + 2)))),
                Err(e) => Err(e),
            }
        } else {
            Err(DecodeError::UnknownType)
        },
        None => if starts_with(text, "native:"@) {
            Ok(TypeView::Native(text.skip("native:"@.len() as int)))
        } else if keyword_type(text) is Some {
            Ok(keyword_type(text)->Some_0)
        } else {
            match entry_value(doc, text, EntryKind::Alias) {
                Some(target) => if visited.contains(text) || visited.len() >= doc.len() {
                    Err(DecodeError::CyclicAlias)
                } else {
                    resolve_node(doc, target, visited.push(text))
                },
                None => if entry_value(doc, text, EntryKind::Container) is Some {
                    Ok(TypeView::Container(text))
                } else {
                    Err(DecodeError::UnknownType)
                },
            }
        },
    }
}

/// Whether `name` is among `names`.
pub fn contains_name(names: &Vec<String>, name: &str) -> (r: bool)
    ensures
        r == names_view(names@).contains(name@),
{
    let mut i: usize = 0;
    while i < names.len()
        invariant
            i <= names@.len(),
            forall|j: int| 0 <= j < i ==> names_view(names@)[j] != name@,
        decreases names.len() - i,
    {
        if str_eq(names[i].as_str(), name) {
            proof {
                assert(names_view(names@)[i as int] == name@);
            }
            return true;
        }
        i += 1;
    }
    false
}

/// Resolves the type expressions of one protocol document.
pub struct TypeResolver<'a> {
    /// The top-level entries of the document.
    pub doc: &'a [(SchemaNode, SchemaNode)],
}

impl<'a> TypeResolver<'a> {
    /// The top-level entries of the document, as plain values.
    pub open spec fn entries(&self) -> Seq<(NodeView, NodeView)> {
        pairs_view(self.doc@)
    }

    /// A resolver for the document with the given top-level entries.
    pub fn new(doc: &'a [(SchemaNode, SchemaNode)]) -> (r: Self)
        ensures
            r.doc@ == doc@,
    {
        TypeResolver { doc }
    }

    /// Resolves a type expression.
    pub fn parse_type(&self, node: &SchemaNode) -> (r: Result<ProtoType, DecodeError>)
        ensures
            match r {
                Ok(ty) => resolve_node(self.entries(), node@, Seq::empty()) == Ok::<
                    TypeView,
                    DecodeError,
                >(ty@),
                Err(e) => resolve_node(self.entries(), node@, Seq::empty()) == Err::<
                    TypeView,
                    DecodeError,
                >(e),
            },
    {
        let mut visited: Vec<String> = Vec::new();
        proof {
            assert(names_view(visited@) =~= Seq::empty());
        }
        self.resolve(node, &mut visited)
    }

    /// Resolves a type expression written as text.
    pub fn parse_type_string(&self, text: &str) -> (r: Result<ProtoType, DecodeError>)
        ensures
            match r {
                Ok(ty) => resolve_name(self.entries(), text@, Seq::empty()) == Ok::<
                    TypeView,
                    DecodeError,
                >(ty@),
                Err(e) => resolve_name(self.entries(), text@, Seq::empty()) == Err::<
                    TypeView,
                    DecodeError,
                >(e),
            },
    {
        let mut visited: Vec<String> = Vec::new();
        proof {
            assert(names_view(visited@) =~= Seq::empty());
        }
        self.resolve_text(text, &mut visited)
    }

    /// Resolves a type expression below the aliases in `visited`, which is
    /// left as it was.
    #[verifier::rlimit(40)]
    pub fn resolve(&self, node: &SchemaNode, visited: &mut Vec<String>) -> (r: Result<
        ProtoType,
        DecodeError,
    >)
        ensures
            final(visited)@ == old(visited)@,
            match r {
                Ok(ty) => resolve_node(self.entries(), node@, names_view(old(visited)@)) == Ok::<
                    TypeView,
                    DecodeError,
                >(ty@),
                Err(e) => resolve_node(self.entries(), node@, names_view(old(visited)@)) == Err::<
                    TypeView,
                    DecodeError,
                >(e),
            },
        decreases self.doc@.len() - old(visited)@.len(), node@.nesting(), 1nat, 0nat,
    {
        match node {
            SchemaNode::Str(text) => self.resolve_text(text.as_str(), visited),
            SchemaNode::Sequence(items) => {
                proof {
                    lemma_sequence_view(*items);
                }
                if items.len() == 0 {
                    return Err(DecodeError::UnknownType);
                }
                match &items[0] {
                    SchemaNode::Str(head) => {
                        if str_eq(head.as_str(), "buffer") || str_eq(head.as_str(), "Buffer") {
                            if items.len() >= 2 {
                                match parse_count_type(&items[1]) {
                                    Ok(c) => Ok(ProtoType::Buffer(c)),
                                    Err(e) => Err(e),
                                }
                            } else {
                                Ok(ProtoType::Buffer(CountType::VarInt))
                            }
                        } else if str_eq(head.as_str(), "pstring") {
                            if items.len() >= 2 {
                                match parse_count_type(&items[1]) {
                                    Ok(c) => Ok(ProtoType::String(c)),
                                    Err(e) => Err(e),
                                }
                            } else {
                                Ok(ProtoType::String(CountType::VarInt))
                            }
                        } else if str_eq(head.as_str(), "encapsulated") {
                            if items.len() >= 2 {
                                match self.resolve(&items[1], visited) {
                                    Ok(inner) => Ok(ProtoType::Encapsulated(Box::new(inner))),
                                    Err(e) => Err(e),
                                }
                            } else {
                                Err(DecodeError::UnknownType)
                            }
                        } else {
                            Err(DecodeError::UnknownType)
                        }
                    },
                    _ => Err(DecodeError::UnknownType),
                }
            },
            _ => Err(DecodeError::UnknownType),
        }
    }

    /// Resolves a type expression written as text below the aliases in
    /// `visited`, which is left as it was.
    #[verifier::rlimit(40)]
    pub fn resolve_text(&self, text: &str, visited: &mut Vec<String>) -> (r: Result<
        ProtoType,
        DecodeError,
    >)
        ensures
            final(visited)@ == old(visited)@,
            match r {
                Ok(ty) => resolve_name(self.entries(), text@, names_view(old(visited)@)) == Ok::<
                    TypeView,
                    DecodeError,
                >(ty@),
                Err(e) => resolve_name(self.entries(), text@, names_view(old(visited)@)) == Err::<
                    TypeView,
                    DecodeError,
                >(e),
            },
        decreases self.doc@.len() - old(visited)@.len(), 0nat, 0nat, text@.len(),
    {
        let chars = chars_of(text);
        match find_brackets(chars.as_slice()) {
            Some(pos) => {
                let len = chars.len();
                let prefix = string_of(vstd::slice::slice_subrange(chars.as_slice(), 0, pos));
                let suffix = string_of(
                    vstd::slice::slice_subrange(chars.as_slice(), pos + 2, len),
                );
                proof {
                    assert(prefix@ == text@.take(pos as int));
                    assert(suffix@ == text@.skip(pos + 2));
                }
                match self.resolve_text(prefix.as_str(), visited) {
                    Ok(elem) => {
                        let count = match count_of_keyword(suffix.as_str()) {
                            Some(c) => c,
                            None => CountType::VarInt,
                        };
                        Ok(ProtoType::Array(Box::new(elem), count))
                    },
                    Err(e) => Err(e),
                }
            },
            None => {
                proof {
                    reveal_strlit("native:");
                }
                if has_prefix(chars.as_slice(), "native:") {
                    let tag = string_of(vstd::slice::slice_subrange(chars.as_slice(), 7, chars.len()));
                    proof {
                        assert(tag@ == text@.skip(7));
                    }
                    return Ok(ProtoType::Native(tag));
                }
                match type_of_keyword(text) {
                    Some(ty) => {
                        return Ok(ty);
                    },
                    None => {},
                }
                match entry_index(self.doc, text, EntryKind::Alias) {
                    Some(i) => {
                        if contains_name(visited, text) || visited.len() >= self.doc.len() {
                            return Err(DecodeError::CyclicAlias);
                        }
                        let ghost before = visited@;
                        visited.push(String::from_str(text));
                        proof {
                            assert(names_view(visited@) =~= names_view(before).push(text@));
                        }
                        let r = self.resolve(&self.doc[i].1, visited);
                        visited.pop();
                        proof {
                            assert(visited@ =~= before);
                        }
                        r
                    },
                    None => match entry_index(self.doc, text, EntryKind::Container) {
                        Some(_i) => Ok(ProtoType::Container(String::from_str(text))),
                        None => Err(DecodeError::UnknownType),
                    },
                }
            },
        }
    }
}

} // verus!
