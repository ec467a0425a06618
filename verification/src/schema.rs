//! The protocol document as a tree of plain values, and the reading of its
//! top-level entries: packet definitions, containers and type aliases.

use vstd::prelude::*;
use crate::text::{chars_of, first_char, str_eq};

verus! {

/// A node of a parsed protocol document.
#[derive(Debug, PartialEq)]
pub enum SchemaNode {
    Null,
    Bool(bool),
    /// A non-negative integer.
    UInt(u64),
    /// Any other scalar: a negative or fractional number, a tagged node.
    Other,
    Str(String),
    Sequence(Vec<SchemaNode>),
    /// Key and value pairs, in document order.
    Mapping(Vec<(SchemaNode, SchemaNode)>),
}

/// The mathematical form of a `SchemaNode`.
pub enum NodeView {
    Null,
    Bool(bool),
    UInt(u64),
    Other,
    Str(Seq<char>),
    Sequence(Seq<NodeView>),
    Mapping(Seq<(NodeView, NodeView)>),
}

/// The mathematical form of `node`.
pub open spec fn node_view(node: SchemaNode) -> NodeView
    decreases node,
{
    match node {
        SchemaNode::Null => NodeView::Null,
        SchemaNode::Bool(b) => NodeView::Bool(b),
        SchemaNode::UInt(n) => NodeView::UInt(n),
        SchemaNode::Other => NodeView::Other,
        SchemaNode::Str(s) => NodeView::Str(s@),
        SchemaNode::Sequence(items) => NodeView::Sequence(
            Seq::new(
                items@.len(),
                |i: int|
                    if 0 <= i < items@.len() {
                        node_view(items@[i])
                    } else {
                        NodeView::Null
                    },
            ),
        ),
        SchemaNode::Mapping(entries) => NodeView::Mapping(
            Seq::new(
                entries@.len(),
                |i: int|
                    if 0 <= i < entries@.len() {
                        (node_view(entries@[i].0), node_view(entries@[i].1))
                    } else {
                        (NodeView::Null, NodeView::Null)
                    },
            ),
        ),
    }
}

impl View for SchemaNode {
    type V = NodeView;

    open spec fn view(&self) -> NodeView {
        node_view(*self)
    }
}

/// The views of a list of nodes, node by node.
pub open spec fn nodes_view(items: Seq<SchemaNode>) -> Seq<NodeView> {
    Seq::new(items.len(), |i: int| items[i]@)
}

/// The views of a list of key and value pairs, pair by pair.
pub open spec fn pairs_view(entries: Seq<(SchemaNode, SchemaNode)>) -> Seq<(NodeView, NodeView)> {
    Seq::new(entries.len(), |i: int| (entries[i].0@, entries[i].1@))
}

/// A sequence node's view is the list of its items' views.
pub proof fn lemma_sequence_view(items: Vec<SchemaNode>)
    ensures
        SchemaNode::Sequence(items)@ == NodeView::Sequence(nodes_view(items@)),
{
    let a = SchemaNode::Sequence(items)@->Sequence_0;
    assert(a.len() == items@.len());
    assert forall|i: int| 0 <= i < a.len() implies a[i] == nodes_view(items@)[i] by {
        assert(a[i] == node_view(items@[i]));
    }
    assert(a =~= nodes_view(items@));
}

/// A mapping node's view is the list of its pairs' views.
pub proof fn lemma_mapping_view(entries: Vec<(SchemaNode, SchemaNode)>)
    ensures
        SchemaNode::Mapping(entries)@ == NodeView::Mapping(pairs_view(entries@)),
{
    let a = SchemaNode::Mapping(entries)@->Mapping_0;
    assert(a.len() == entries@.len());
    assert forall|i: int| 0 <= i < a.len() implies a[i] == pairs_view(entries@)[i] by {
        assert(a[i] == (node_view(entries@[i].0), node_view(entries@[i].1)));
    }
    assert(a =~= pairs_view(entries@));
}

/// Whether `text` begins with `prefix`.
pub open spec fn starts_with(text: Seq<char>, prefix: Seq<char>) -> bool {
    prefix.len() <= text.len() && text.take(prefix.len() as int) == prefix
}

/// Whether `text` begins with `prefix`.
pub fn has_prefix(text: &[char], prefix: &str) -> (r: bool)
    ensures
        r == starts_with(text@, prefix@),
{
    let p = chars_of(prefix);
    if p.len() > text.len() {
        return false;
    }
    let mut i: usize = 0;
    while i < p.len()
        invariant
            i <= p@.len() <= text@.len(),
            p@ == prefix@,
            text@.take(i as int) == p@.take(i as int),
        decreases p.len() - i,
    {
        if text[i] != p[i] {
            proof {
                assert(text@.take(p@.len() as int)[i as int] != p@[i as int]);
            }
            return false;
        }
        proof {
            assert(text@.take(i + 1) == text@.take(i as int).push(text@[i as int]));
            assert(p@.take(i + 1) == p@.take(i as int).push(p@[i as int]));
        }
        i += 1;
    }
    proof {
        assert(p@.take(p@.len() as int) == p@);
    }
    true
}

/// Whether a name is metadata: it starts with `!`.
pub open spec fn is_meta(name: Seq<char>) -> bool {
    name.len() > 0 && name[0] == '!'
}

/// Whether a name is metadata: it starts with `!`.
pub fn meta_name(name: &str) -> (r: bool)
    ensures
        r == is_meta(name@),
{
    match first_char(name) {
        Some(c) => c == '!',
        None => false,
    }
}

/// Whether a mapping has a field: a string key that is not metadata.
pub open spec fn has_field(entries: Seq<(NodeView, NodeView)>) -> bool
    decreases entries.len(),
{
    if entries.len() == 0 {
        false
    } else if entries[0].0 matches NodeView::Str(k) && !is_meta(k) {
        true
    } else {
        has_field(entries.drop_first())
    }
}

/// What a top-level entry of the document defines.
#[derive(Clone, Copy, Debug, PartialEq, Eq, Structural)]
pub enum EntryKind {
    /// Nothing: the key is no string, or is metadata, or a packet has no mapping.
    Ignored,
    /// A packet definition: the key starts with `packet_`, the value is a mapping.
    Packet,
    /// A container: the value is a mapping with at least one field.
    Container,
    /// A type alias: anything else.
    Alias,
}

/// What the entry `key: value` defines.
pub open spec fn entry_kind(key: NodeView, value: NodeView) -> EntryKind {
    match key {
        NodeView::Str(name) => if is_meta(name) {
            EntryKind::Ignored
        } else if starts_with(name, "packet_"@) {
            if value is Mapping {
                EntryKind::Packet
            } else {
                EntryKind::Ignored
            }
        } else if value matches NodeView::Mapping(entries) && has_field(entries) {
            EntryKind::Container
        } else {
            EntryKind::Alias
        },
        _ => EntryKind::Ignored,
    }
}

/// Whether a mapping has a field.
pub fn mapping_has_field(entries: &[(SchemaNode, SchemaNode)]) -> (r: bool)
    ensures
        r == has_field(pairs_view(entries@)),
{
    let ghost all = pairs_view(entries@);
    let mut i: usize = 0;
    proof {
        assert(all.skip(0) == all);
    }
    while i < entries.len()
        invariant
            i <= entries@.len(),
            all == pairs_view(entries@),
            has_field(all) == has_field(all.skip(i as int)),
        decreases entries.len() - i,
    {
        proof {
            assert(all.skip(i as int).drop_first() == all.skip(i + 1));
        }
        match &entries[i].0 {
            SchemaNode::Str(k) => {
                if !meta_name(k.as_str()) {
                    return true;
                }
            },
            _ => {},
        }
        i += 1;
    }
    false
}

/// Classifies a top-level entry of the document.
pub fn classify(key: &SchemaNode, value: &SchemaNode) -> (r: EntryKind)
    ensures
        r == entry_kind(key@, value@),
{
    match key {
        SchemaNode::Str(name) => {
            if meta_name(name.as_str()) {
                return EntryKind::Ignored;
            }
            let chars = chars_of(name.as_str());
            if has_prefix(chars.as_slice(), "packet_") {
                match value {
                    SchemaNode::Mapping(_) => EntryKind::Packet,
                    _ => EntryKind::Ignored,
                }
            } else {
                match value {
                    SchemaNode::Mapping(entries) => {
                        proof {
                            lemma_mapping_view(*entries);
                        }
                        if mapping_has_field(entries.as_slice()) {
                            EntryKind::Container
                        } else {
                            EntryKind::Alias
                        }
                    },
                    _ => EntryKind::Alias,
                }
            }
        },
        _ => EntryKind::Ignored,
    }
}

/// The value of the first entry with the string key `name` and the kind `kind`.
pub open spec fn entry_value(
    doc: Seq<(NodeView, NodeView)>,
    name: Seq<char>,
    kind: EntryKind,
) -> Option<NodeView>
    decreases doc.len(),
{
    if doc.len() == 0 {
        None
    } else if doc[0].0 == NodeView::Str(name) && entry_kind(doc[0].0, doc[0].1) == kind {
        Some(doc[0].1)
    } else {
        entry_value(doc.drop_first(), name, kind)
    }
}

/// Looks up the first entry with the string key `name` and the kind `kind`;
/// the result is its index.
pub fn entry_index(doc: &[(SchemaNode, SchemaNode)], name: &str, kind: EntryKind) -> (r: Option<
    usize,
>)
    ensures
        match r {
            Some(i) => i < doc@.len() && entry_value(pairs_view(doc@), name@, kind) == Some(
                doc@[i as int].1@,
            ),
            None => entry_value(pairs_view(doc@), name@, kind) is None,
        },
{
    let ghost all = pairs_view(doc@);
    let mut i: usize = 0;
    proof {
        assert(all.skip(0) == all);
    }
    while i < doc.len()
        invariant
            i <= doc@.len(),
            all == pairs_view(doc@),
            entry_value(all, name@, kind) == entry_value(all.skip(i as int), name@, kind),
        decreases doc.len() - i,
    {
        proof {
            assert(all.skip(i as int).drop_first() == all.skip(i + 1));
        }
        let is_name = match &doc[i].0 {
            SchemaNode::Str(k) => str_eq(k.as_str(), name),
            _ => false,
        };
        if is_name && classify(&doc[i].0, &doc[i].1) == kind {
            return Some(i);
        }
        i += 1;
    }
    None
}

} // verus!
