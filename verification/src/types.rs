//! The normalized type tree that schema type expressions resolve to.

use vstd::prelude::*;
use crate::wire::DecodeError;

verus! {

/// How the length of a string, buffer or array is written on the wire.
#[derive(Clone, Copy, Debug, PartialEq, Eq, Structural)]
pub enum CountType {
    VarInt,
    ZigZag32,
    LI16,
    LI32,
    LI64,
    LU16,
    LU32,
    Fixed(u32),
}

/// A resolved wire type.
#[derive(Debug, PartialEq, Eq)]
pub enum ProtoType {
    I8,
    U8,
    I16,
    U16,
    I32,
    U32,
    I64,
    U64,
    F32,
    F64,
    Bool,
    VarInt32,
    VarInt64,
    ZigZag32,
    ZigZag64,
    LI16,
    LI32,
    LI64,
    LU16,
    LU32,
    LU64,
    String(CountType),
    LittleString,
    ShortString,
    LatinString,
    Buffer(CountType),
    Array(Box<ProtoType>, CountType),
    UUID,
    Vec2F,
    Vec3F,
    Encapsulated(Box<ProtoType>),
    Container(String),
    Native(String),
    RestBuffer,
}

/// The mathematical form of a `ProtoType`.
pub enum TypeView {
    I8,
    U8,
    I16,
    U16,
    I32,
    U32,
    I64,
    U64,
    F32,
    F64,
    Bool,
    VarInt32,
    VarInt64,
    ZigZag32,
    ZigZag64,
    LI16,
    LI32,
    LI64,
    LU16,
    LU32,
    LU64,
    String(CountType),
    LittleString,
    ShortString,
    LatinString,
    Buffer(CountType),
    Array(Box<TypeView>, CountType),
    UUID,
    Vec2F,
    Vec3F,
    Encapsulated(Box<TypeView>),
    Container(Seq<char>),
    Native(Seq<char>),
    RestBuffer,
}

impl TypeView {
    /// How many wrappers (arrays, encapsulations) lie around the innermost type.
    pub open spec fn height(self) -> nat
        decreases self,
    {
        match self {
            TypeView::Array(elem, _) => 1 + elem.height(),
            TypeView::Encapsulated(inner) => 1 + inner.height(),
            _ => 0,
        }
    }
}

impl View for ProtoType {
    type V = TypeView;

    open spec fn view(&self) -> TypeView
        decreases self,
    {
        match self {
            ProtoType::I8 => TypeView::I8,
            ProtoType::U8 => TypeView::U8,
            ProtoType::I16 => TypeView::I16,
            ProtoType::U16 => TypeView::U16,
            ProtoType::I32 => TypeView::I32,
            ProtoType::U32 => TypeView::U32,
            ProtoType::I64 => TypeView::I64,
            ProtoType::U64 => TypeView::U64,
            ProtoType::F32 => TypeView::F32,
            ProtoType::F64 => TypeView::F64,
            ProtoType::Bool => TypeView::Bool,
            ProtoType::VarInt32 => TypeView::VarInt32,
            ProtoType::VarInt64 => TypeView::VarInt64,
            ProtoType::ZigZag32 => TypeView::ZigZag32,
            ProtoType::ZigZag64 => TypeView::ZigZag64,
            ProtoType::LI16 => TypeView::LI16,
            ProtoType::LI32 => TypeView::LI32,
            ProtoType::LI64 => TypeView::LI64,
            ProtoType::LU16 => TypeView::LU16,
            ProtoType::LU32 => TypeView::LU32,
            ProtoType::LU64 => TypeView::LU64,
            ProtoType::String(c) => TypeView::String(*c),
            ProtoType::LittleString => TypeView::LittleString,
            ProtoType::ShortString => TypeView::ShortString,
            ProtoType::LatinString => TypeView::LatinString,
            ProtoType::Buffer(c) => TypeView::Buffer(*c),
            ProtoType::Array(elem, c) => TypeView::Array(Box::new((**elem)@), *c),
            ProtoType::UUID => TypeView::UUID,
            ProtoType::Vec2F => TypeView::Vec2F,
            ProtoType::Vec3F => TypeView::Vec3F,
            ProtoType::Encapsulated(inner) => TypeView::Encapsulated(Box::new((**inner)@)),
            ProtoType::Container(name) => TypeView::Container(name@),
            ProtoType::Native(tag) => TypeView::Native(tag@),
            ProtoType::RestBuffer => TypeView::RestBuffer,
        }
    }
}

impl Clone for ProtoType {
    fn clone(&self) -> (r: Self)
        ensures
            r@ == self@,
        decreases self,
    {
        match self {
            ProtoType::I8 => ProtoType::I8,
            ProtoType::U8 => ProtoType::U8,
            ProtoType::I16 => ProtoType::I16,
            ProtoType::U16 => ProtoType::U16,
            ProtoType::I32 => ProtoType::I32,
            ProtoType::U32 => ProtoType::U32,
            ProtoType::I64 => ProtoType::I64,
            ProtoType::U64 => ProtoType::U64,
            ProtoType::F32 => ProtoType::F32,
            ProtoType::F64 => ProtoType::F64,
            ProtoType::Bool => ProtoType::Bool,
            ProtoType::VarInt32 => ProtoType::VarInt32,
            ProtoType::VarInt64 => ProtoType::VarInt64,
            ProtoType::ZigZag32 => ProtoType::ZigZag32,
            ProtoType::ZigZag64 => ProtoType::ZigZag64,
            ProtoType::LI16 => ProtoType::LI16,
            ProtoType::LI32 => ProtoType::LI32,
            ProtoType::LI64 => ProtoType::LI64,
            ProtoType::LU16 => ProtoType::LU16,
            ProtoType::LU32 => ProtoType::LU32,
            ProtoType::LU64 => ProtoType::LU64,
            ProtoType::String(c) => ProtoType::String(*c),
            ProtoType::LittleString => ProtoType::LittleString,
            ProtoType::ShortString => ProtoType::ShortString,
            ProtoType::LatinString => ProtoType::LatinString,
            ProtoType::Buffer(c) => ProtoType::Buffer(*c),
            ProtoType::Array(elem, c) => {
                let inner: &ProtoType = &**elem;
                ProtoType::Array(Box::new(inner.clone()), *c)
            },
            ProtoType::UUID => ProtoType::UUID,
            ProtoType::Vec2F => ProtoType::Vec2F,
            ProtoType::Vec3F => ProtoType::Vec3F,
            ProtoType::Encapsulated(inner) => {
                let inner: &ProtoType = &**inner;
                ProtoType::Encapsulated(Box::new(inner.clone()))
            },
            ProtoType::Container(name) => ProtoType::Container(name.clone()),
            ProtoType::Native(tag) => ProtoType::Native(tag.clone()),
            ProtoType::RestBuffer => ProtoType::RestBuffer,
        }
    }
}

/// What a field's type expression resolved to.
#[derive(Clone, Debug, PartialEq, Eq)]
pub enum FieldType {
    /// The wire type of the field.
    Known(ProtoType),
    /// The expression did not resolve; decoding the field fails with this error.
    Unresolved(DecodeError),
}

impl View for FieldType {
    type V = Result<TypeView, DecodeError>;

    open spec fn view(&self) -> Result<TypeView, DecodeError> {
        match self {
            FieldType::Known(t) => Ok(t@),
            FieldType::Unresolved(e) => Err(*e),
        }
    }
}

/// One field of a packet or container: its name and what its type expression
/// resolved to.
#[derive(Clone, Debug, PartialEq, Eq)]
pub struct FieldDef {
    pub name: String,
    pub ty: FieldType,
}

/// The mathematical form of a `FieldDef`.
pub struct FieldView {
    pub name: Seq<char>,
    pub ty: Result<TypeView, DecodeError>,
}

impl View for FieldDef {
    type V = FieldView;

    open spec fn view(&self) -> FieldView {
        FieldView { name: self.name@, ty: self.ty@ }
    }
}

/// The views of a field list, field by field.
pub open spec fn fields_view(fields: Seq<FieldDef>) -> Seq<FieldView> {
    Seq::new(fields.len(), |i: int| fields[i]@)
}

/// A named struct: an ordered list of fields.
#[derive(Clone, Debug, PartialEq, Eq)]
pub struct ContainerDef {
    pub name: String,
    pub fields: Vec<FieldDef>,
}

/// The mathematical form of a `ContainerDef`.
pub struct ContainerView {
    pub name: Seq<char>,
    pub fields: Seq<FieldView>,
}

impl View for ContainerDef {
    type V = ContainerView;

    open spec fn view(&self) -> ContainerView {
        ContainerView { name: self.name@, fields: fields_view(self.fields@) }
    }
}

/// The views of a container table, container by container.
pub open spec fn containers_view(containers: Seq<ContainerDef>) -> Seq<ContainerView> {
    Seq::new(containers.len(), |i: int| containers[i]@)
}

/// The fields of the first container of that name, if there is one.
pub open spec fn find_container(containers: Seq<ContainerView>, name: Seq<char>) -> Option<
    Seq<FieldView>,
>
    decreases containers.len(),
{
    if containers.len() == 0 {
        None
    } else if containers[0].name == name {
        Some(containers[0].fields)
    } else {
        find_container(containers.drop_first(), name)
    }
}

/// Looks a container up by name; the result is its index in the table.
pub fn container_index(containers: &[ContainerDef], name: &String) -> (r: Option<usize>)
    ensures
        match r {
            Some(i) => i < containers@.len() && find_container(
                containers_view(containers@),
                name@,
            ) == Some(containers@[i as int]@.fields),
            None => find_container(containers_view(containers@), name@) is None,
        },
{
    let ghost all = containers_view(containers@);
    let mut i: usize = 0;
    proof {
        assert(all.skip(0) == all);
    }
    while i < containers.len()
        invariant
            i <= containers@.len(),
            all == containers_view(containers@),
            find_container(all, name@) == find_container(all.skip(i as int), name@),
        decreases containers.len() - i,
    {
        proof {
            assert(all.skip(i as int).drop_first() == all.skip(i + 1));
        }
        if containers[i].name == *name {
            return Some(i);
        }
        i += 1;
    }
    None
}

} // verus!
