//! The tree of decoded values: a JSON-like sum type whose objects keep their
//! entries in insertion order.

use vstd::prelude::*;

verus! {

/// A decoded value. Floating-point numbers are carried as their IEEE 754 bit
/// patterns; an unsigned integer above `i64::MAX` is a `UInt`.
#[derive(Debug, PartialEq)]
pub enum Value {
    Null,
    Bool(bool),
    Int(i64),
    UInt(u64),
    /// A single-precision number, by its bits.
    F32(u32),
    /// A double-precision number, by its bits.
    F64(u64),
    Str(String),
    Array(Vec<Value>),
    /// Named entries, in insertion order. Nothing keeps a key from
    /// occurring twice; where an entry is looked up by its key, the first
    /// with that key is taken.
    Object(Vec<(String, Value)>),
}

/// The mathematical value that a `Value` stands for.
pub enum ValueView {
    Null,
    Bool(bool),
    Int(i64),
    UInt(u64),
    F32(u32),
    F64(u64),
    Str(Seq<char>),
    Array(Seq<ValueView>),
    Object(Seq<(Seq<char>, ValueView)>),
}

/// The mathematical value of `v`.
pub open spec fn value_view(v: Value) -> ValueView
    decreases v,
{
    match v {
        Value::Null => ValueView::Null,
        Value::Bool(b) => ValueView::Bool(b),
        Value::Int(i) => ValueView::Int(i),
        Value::UInt(u) => ValueView::UInt(u),
        Value::F32(b) => ValueView::F32(b),
        Value::F64(b) => ValueView::F64(b),
        Value::Str(s) => ValueView::Str(s@),
        Value::Array(items) => ValueView::Array(
            Seq::new(
                items@.len(),
                |i: int|
                    if 0 <= i < items@.len() {
                        value_view(items@[i])
                    } else {
                        ValueView::Null
                    },
            ),
        ),
        Value::Object(entries) => ValueView::Object(
            Seq::new(
                entries@.len(),
                |i: int|
                    if 0 <= i < entries@.len() {
                        (entries@[i].0@, value_view(entries@[i].1))
                    } else {
                        (Seq::empty(), ValueView::Null)
                    },
            ),
        ),
    }
}

impl View for Value {
    type V = ValueView;

    open spec fn view(&self) -> ValueView {
        value_view(*self)
    }
}

impl Clone for Value {
    fn clone(&self) -> (r: Self)
        ensures
            r@ == self@,
        decreases self,
    {
        match self {
            Value::Null => Value::Null,
            Value::Bool(b) => Value::Bool(*b),
            Value::Int(i) => Value::Int(*i),
            Value::UInt(u) => Value::UInt(*u),
            Value::F32(b) => Value::F32(*b),
            Value::F64(b) => Value::F64(*b),
            Value::Str(s) => Value::Str(s.clone()),
            Value::Array(items) => {
                let mut out: Vec<Value> = Vec::new();
                let mut i: usize = 0;
                while i < items.len()
                    invariant
                        i <= items.len(),
                        self == Value::Array(*items),
                        out@.len() == i,
                        forall|j: int| 0 <= j < i ==> out@[j]@ == items@[j]@,
                    decreases items.len() - i,
                {
                    proof {
                        assert(decreases_to!(*self => self->Array_0));
                        assert(decreases_to!(*items => items[i as int]));
                    }
                    let item = items[i].clone();
                    out.push(item);
                    i += 1;
                }
                proof {
                    lemma_array_view(out);
                    lemma_array_view(*items);
                    assert(values_view(out@) =~= values_view(items@));
                }
                Value::Array(out)
            },
            Value::Object(entries) => {
                let mut out: Vec<(String, Value)> = Vec::new();
                let mut i: usize = 0;
                while i < entries.len()
                    invariant
                        i <= entries.len(),
                        self == Value::Object(*entries),
                        out@.len() == i,
                        forall|j: int|
                            0 <= j < i ==> out@[j].0@ == entries@[j].0@ && out@[j].1@
                                == entries@[j].1@,
                    decreases entries.len() - i,
                {
                    let name = entries[i].0.clone();
                    proof {
                        assert(decreases_to!(*self => self->Object_0));
                        assert(decreases_to!(*entries => entries[i as int]));
                    }
                    let item = entries[i].1.clone();
                    out.push((name, item));
                    i += 1;
                }
                proof {
                    lemma_object_view(out);
                    lemma_object_view(*entries);
                    assert(entries_view(out@) =~= entries_view(entries@));
                }
                Value::Object(out)
            },
        }
    }
}

/// The views of a list of values, item by item.
pub open spec fn values_view(items: Seq<Value>) -> Seq<ValueView> {
    Seq::new(items.len(), |i: int| items[i]@)
}

/// The views of a list of named values, entry by entry.
pub open spec fn entries_view(entries: Seq<(String, Value)>) -> Seq<(Seq<char>, ValueView)> {
    Seq::new(entries.len(), |i: int| (entries[i].0@, entries[i].1@))
}

/// An array's view is the list of its items' views.
pub proof fn lemma_array_view(items: Vec<Value>)
    ensures
        Value::Array(items)@ == ValueView::Array(values_view(items@)),
{
    let a = Value::Array(items)@->Array_0;
    assert(a.len() == items@.len());
    assert forall|i: int| 0 <= i < a.len() implies a[i] == values_view(items@)[i] by {
        assert(a[i] == value_view(items@[i]));
    }
    assert(a =~= values_view(items@));
}

/// An object's view is the list of its entries' views.
pub proof fn lemma_object_view(entries: Vec<(String, Value)>)
    ensures
        Value::Object(entries)@ == ValueView::Object(entries_view(entries@)),
{
    let a = Value::Object(entries)@->Object_0;
    assert(a.len() == entries@.len());
    assert forall|i: int| 0 <= i < a.len() implies a[i] == entries_view(entries@)[i] by {
        assert(a[i] == (entries@[i].0@, value_view(entries@[i].1)));
    }
    assert(a =~= entries_view(entries@));
}

} // verus!
