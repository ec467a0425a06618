//! The structural differ: a recursive comparison of two decoded value trees
//! that yields an annotated edit script.

use vstd::prelude::*;
use crate::text::{chars_of, names_view, str_eq};
use crate::value::{entries_view, lemma_array_view, lemma_object_view, values_view, Value, ValueView};

verus! {

/// What became of a value between a baseline and a current tree.
#[derive(Debug, PartialEq)]
pub enum JsonDiff {
    /// Present only in the current tree.
    Added(Value),
    /// Present only in the baseline.
    Removed(Value),
    /// Two unequal values that are not both objects or both arrays.
    Modified { old: Value, new: Value },
    /// Nothing changed. For objects and arrays the value is left empty.
    Unchanged(Value),
    /// The entries of an object that differ. A comparison gives them in
    /// strictly rising key order; one built by hand may hold them in any
    /// order, and is displayed by rising key all the same.
    ObjectDiff(Vec<(String, JsonDiff)>),
    /// The elements of an array that differ, each with its index.
    ArrayDiff(Vec<(usize, JsonDiff)>),
}

/// The mathematical form of a `JsonDiff`.
pub enum DiffView {
    Added(ValueView),
    Removed(ValueView),
    Modified { old: ValueView, new: ValueView },
    Unchanged(ValueView),
    ObjectDiff(Seq<(Seq<char>, DiffView)>),
    ArrayDiff(Seq<(nat, DiffView)>),
}

/// The mathematical form of `d`.
pub open spec fn diff_view(d: JsonDiff) -> DiffView
    decreases d,
{
    match d {
        JsonDiff::Added(v) => DiffView::Added(v@),
        JsonDiff::Removed(v) => DiffView::Removed(v@),
        JsonDiff::Modified { old, new } => DiffView::Modified { old: old@, new: new@ },
        JsonDiff::Unchanged(v) => DiffView::Unchanged(v@),
        JsonDiff::ObjectDiff(entries) => DiffView::ObjectDiff(
            Seq::new(
                entries@.len(),
                |i: int|
                    if 0 <= i < entries@.len() {
                        (entries@[i].0@, diff_view(entries@[i].1))
                    } else {
                        (Seq::empty(), DiffView::Unchanged(ValueView::Null))
                    },
            ),
        ),
        JsonDiff::ArrayDiff(entries) => DiffView::ArrayDiff(
            Seq::new(
                entries@.len(),
                |i: int|
                    if 0 <= i < entries@.len() {
                        (entries@[i].0 as nat, diff_view(entries@[i].1))
                    } else {
                        (0nat, DiffView::Unchanged(ValueView::Null))
                    },
            ),
        ),
    }
}

impl View for JsonDiff {
    type V = DiffView;

    open spec fn view(&self) -> DiffView {
        diff_view(*self)
    }
}

/// The views of the entries of an object diff, entry by entry.
pub open spec fn object_diff_view(entries: Seq<(String, JsonDiff)>) -> Seq<(Seq<char>, DiffView)> {
    Seq::new(entries.len(), |i: int| (entries[i].0@, entries[i].1@))
}

/// The views of the entries of an array diff, entry by entry.
pub open spec fn array_diff_view(entries: Seq<(usize, JsonDiff)>) -> Seq<(nat, DiffView)> {
    Seq::new(entries.len(), |i: int| (entries[i].0 as nat, entries[i].1@))
}

/// An object diff's view is the list of its entries' views.
pub proof fn lemma_object_diff_view(entries: Vec<(String, JsonDiff)>)
    ensures
        JsonDiff::ObjectDiff(entries)@ == DiffView::ObjectDiff(object_diff_view(entries@)),
{
    let a = JsonDiff::ObjectDiff(entries)@->ObjectDiff_0;
    assert(a.len() == entries@.len());
    assert forall|i: int| 0 <= i < a.len() implies a[i] == object_diff_view(entries@)[i] by {
        assert(a[i] == (entries@[i].0@, diff_view(entries@[i].1)));
    }
    assert(a =~= object_diff_view(entries@));
}

/// An array diff's view is the list of its entries' views.
pub proof fn lemma_array_diff_view(entries: Vec<(usize, JsonDiff)>)
    ensures
        JsonDiff::ArrayDiff(entries)@ == DiffView::ArrayDiff(array_diff_view(entries@)),
{
    let a = JsonDiff::ArrayDiff(entries)@->ArrayDiff_0;
    assert(a.len() == entries@.len());
    assert forall|i: int| 0 <= i < a.len() implies a[i] == array_diff_view(entries@)[i] by {
        assert(a[i] == (entries@[i].0 as nat, diff_view(entries@[i].1)));
    }
    assert(a =~= array_diff_view(entries@));
}

/// The order of keys: lexicographic by code point, a proper prefix first.
pub open spec fn key_lt(a: Seq<char>, b: Seq<char>) -> bool
    decreases a.len(),
{
    if b.len() == 0 {
        false
    } else if a.len() == 0 {
        true
    } else if a[0] != b[0] {
        a[0] < b[0]
    } else {
        key_lt(a.drop_first(), b.drop_first())
    }
}

/// No key is before itself.
pub proof fn lemma_key_lt_irreflexive(a: Seq<char>)
    ensures
        !key_lt(a, a),
    decreases a.len(),
{
    if a.len() > 0 {
        lemma_key_lt_irreflexive(a.drop_first());
    }
}

/// Of two different keys one is before the other.
pub proof fn lemma_key_lt_total(a: Seq<char>, b: Seq<char>)
    ensures
        a == b || key_lt(a, b) || key_lt(b, a),
    decreases a.len(),
{
    if a.len() > 0 && b.len() > 0 && a[0] == b[0] {
        lemma_key_lt_total(a.drop_first(), b.drop_first());
        if a.drop_first() == b.drop_first() {
            assert(a =~= seq![a[0]] + a.drop_first());
            assert(b =~= seq![b[0]] + b.drop_first());
        }
    } else if a.len() == 0 && b.len() == 0 {
        assert(a =~= b);
    }
}

/// The order of keys is transitive.
pub proof fn lemma_key_lt_transitive(a: Seq<char>, b: Seq<char>, c: Seq<char>)
    requires
        key_lt(a, b),
        key_lt(b, c),
    ensures
        key_lt(a, c),
    decreases a.len(),
{
    if a.len() > 0 && b.len() > 0 && c.len() > 0 && a[0] == b[0] && b[0] == c[0] {
        lemma_key_lt_transitive(a.drop_first(), b.drop_first(), c.drop_first());
    }
}

/// Whether the keys stand in strictly rising order.
pub open spec fn strictly_sorted(s: Seq<Seq<char>>) -> bool {
    forall|i: int, j: int| 0 <= i < j < s.len() ==> key_lt(#[trigger] s[i], #[trigger] s[j])
}

/// A sorted list of keys with `k` put in its place, unless it is there already.
pub open spec fn insert_key(s: Seq<Seq<char>>, k: Seq<char>) -> Seq<Seq<char>>
    decreases s.len(),
{
    if s.len() == 0 {
        seq![k]
    } else if k == s[0] {
        s
    } else if key_lt(k, s[0]) {
        seq![k] + s
    } else {
        seq![s[0]] + insert_key(s.drop_first(), k)
    }
}

/// A sorted list of keys with the keys of `entries` put in their places.
pub open spec fn insert_keys<T>(s: Seq<Seq<char>>, entries: Seq<(Seq<char>, T)>) -> Seq<
    Seq<char>,
>
    decreases entries.len(),
{
    if entries.len() == 0 {
        s
    } else {
        insert_keys(insert_key(s, entries[0].0), entries.drop_first())
    }
}

/// The keys of two objects, each once, in sorted order.
pub open spec fn merged_keys(
    x: Seq<(Seq<char>, ValueView)>,
    y: Seq<(Seq<char>, ValueView)>,
) -> Seq<Seq<char>> {
    insert_keys(insert_keys(Seq::empty(), x), y)
}

/// The index of the first entry with the key `k`.
pub open spec fn key_index<T>(x: Seq<(Seq<char>, T)>, k: Seq<char>) -> Option<int>
    decreases x.len(),
{
    if x.len() == 0 {
        None
    } else if x[0].0 == k {
        Some(0)
    } else {
        match key_index(x.drop_first(), k) {
            Some(i) => Some(i + 1),
            None => None,
        }
    }
}

/// The diff of `current` against `baseline`. Two objects are compared key by
/// key, two arrays position by position; any other pair is unchanged where
/// the two are equal and modified where they are not.
pub open spec fn diff_spec(a: ValueView, b: ValueView) -> DiffView
    decreases a, 1nat, 0nat,
{
    match (a, b) {
        (ValueView::Object(x), ValueView::Object(y)) => {
            let entries = object_entries(a, b, merged_keys(x, y), 0);
            if entries.len() == 0 {
                DiffView::Unchanged(ValueView::Object(Seq::empty()))
            } else {
                DiffView::ObjectDiff(entries)
            }
        },
        (ValueView::Array(x), ValueView::Array(y)) => {
            let entries = array_entries(a, b, 0);
            if entries.len() == 0 {
                DiffView::Unchanged(ValueView::Array(Seq::empty()))
            } else {
                DiffView::ArrayDiff(entries)
            }
        },
        _ => if a == b {
            DiffView::Unchanged(a)
        } else {
            DiffView::Modified { old: a, new: b }
        },
    }
}

/// The entries of an object diff for the keys from index `i` on.
pub open spec fn object_entries(a: ValueView, b: ValueView, keys: Seq<Seq<char>>, i: nat) -> Seq<
    (Seq<char>, DiffView),
>
    decreases a, 0nat, keys.len() - i,
{
    if i >= keys.len() || !(a is Object) || !(b is Object) {
        Seq::empty()
    } else {
        let x = a->Object_0;
        let y = b->Object_0;
        let k = keys[i as int];
        let rest = object_entries(a, b, keys, i + 1);
        match (key_index(x, k), key_index(y, k)) {
            (Some(p), Some(q)) => if 0 <= p < x.len() && 0 <= q < y.len() {
                let d = diff_spec(x[p].1, y[q].1);
                if d is Unchanged {
                    rest
                } else {
                    seq![(k, d)] + rest
                }
            } else {
                rest
            },
            (Some(p), None) => if 0 <= p < x.len() {
                seq![(k, DiffView::Removed(x[p].1))] + rest
            } else {
                rest
            },
            (None, Some(q)) => if 0 <= q < y.len() {
                seq![(k, DiffView::Added(y[q].1))] + rest
            } else {
                rest
            },
            (None, None) => rest,
        }
    }
}

/// The entries of an array diff for the positions from `i` on.
pub open spec fn array_entries(a: ValueView, b: ValueView, i: nat) -> Seq<(nat, DiffView)>
    decreases a, 0nat, (if a is Array && b is Array {
        if a->Array_0.len() > b->Array_0.len() {
            a->Array_0.len()
        } else {
            b->Array_0.len()
        }
    } else {
        0
    }) - i,
{
    if !(a is Array) || !(b is Array) {
        Seq::empty()
    } else {
        let x = a->Array_0;
        let y = b->Array_0;
        if i >= x.len() && i >= y.len() {
            Seq::empty()
        } else {
            let rest = array_entries(a, b, i + 1);
            if i < x.len() && i < y.len() {
                let d = diff_spec(x[i as int], y[i as int]);
                if d is Unchanged {
                    rest
                } else {
                    seq![(i, d)] + rest
                }
            } else if i < x.len() {
                seq![(i, DiffView::Removed(x[i as int]))] + rest
            } else {
                seq![(i, DiffView::Added(y[i as int]))] + rest
            }
        }
    }
}

/// Whether the key `a` is before the key `b`.
pub fn key_less(a: &str, b: &str) -> (r: bool)
    ensures
        r == key_lt(a@, b@),
{
    let x = chars_of(a);
    let y = chars_of(b);
    let mut i: usize = 0;
    proof {
        assert(x@.skip(0) == x@);
        assert(y@.skip(0) == y@);
    }
    while i < x.len() && i < y.len()
        invariant
            i <= x@.len(),
            i <= y@.len(),
            x@ == a@,
            y@ == b@,
            key_lt(a@, b@) == key_lt(x@.skip(i as int), y@.skip(i as int)),
        decreases x.len() - i,
    {
        proof {
            assert(x@.skip(i as int).drop_first() == x@.skip(i + 1));
            assert(y@.skip(i as int).drop_first() == y@.skip(i + 1));
        }
        if x[i] != y[i] {
            return x[i] < y[i];
        }
        i += 1;
    }
    i < y.len()
}

/// Puts `k` in its place in a sorted list of keys, unless it is there already.
#[verifier::rlimit(40)]
pub fn insert_sorted(keys: &mut Vec<String>, k: &String)
    ensures
        names_view(final(keys)@) == insert_key(names_view(old(keys)@), k@),
{
    let ghost s = names_view(keys@);
    let mut p: usize = 0;
    proof {
        assert(s.skip(0) == s);
        assert(s.take(0) + insert_key(s, k@) =~= insert_key(s, k@));
    }
    while p < keys.len()
        invariant
            p <= keys@.len(),
            *keys == *old(keys),
            s == names_view(keys@),
            insert_key(s, k@) == s.take(p as int) + insert_key(s.skip(p as int), k@),
        decreases keys.len() - p,
    {
        proof {
            assert(s.skip(p as int).drop_first() == s.skip(p + 1));
            assert(s.skip(p as int)[0] == keys@[p as int]@);
        }
        if str_eq(keys[p].as_str(), k.as_str()) {
            proof {
                assert(s.take(p as int) + s.skip(p as int) =~= s);
            }
            return ;
        }
        if key_less(k.as_str(), keys[p].as_str()) {
            keys.insert(p, k.clone());
            proof {
                assert(names_view(keys@) =~= s.take(p as int) + (seq![k@] + s.skip(p as int)));
            }
            return ;
        }
        proof {
            let rest = insert_key(s.skip(p + 1), k@);
            assert(s.take(p as int) + (seq![s[p as int]] + rest) =~= s.take(p + 1) + rest);
        }
        p += 1;
    }
    keys.push(k.clone());
    proof {
        assert(s.take(p as int) == s);
        assert(names_view(keys@) =~= s + seq![k@]);
    }
}

/// The index of the first entry of an object with the key `k`.
pub fn find_key(entries: &Vec<(String, Value)>, k: &str) -> (r: Option<usize>)
    ensures
        match r {
            Some(i) => i < entries@.len() && key_index(entries_view(entries@), k@) == Some(
                i as int,
            ),
            None => key_index(entries_view(entries@), k@) is None,
        },
{
    let ghost all = entries_view(entries@);
    let mut i: usize = 0;
    proof {
        assert(all.skip(0) == all);
    }
    while i < entries.len()
        invariant
            i <= entries@.len(),
            all == entries_view(entries@),
            key_index(all, k@) == crate::text::moved(
                key_index(all.skip(i as int), k@),
                i as int,
            ),
        decreases entries.len() - i,
    {
        proof {
            assert(all.skip(i as int).drop_first() == all.skip(i + 1));
        }
        if str_eq(entries[i].0.as_str(), k) {
            return Some(i);
        }
        i += 1;
    }
    None
}

/// The keys of two objects, each once, in sorted order.
pub fn sorted_keys(x: &Vec<(String, Value)>, y: &Vec<(String, Value)>) -> (keys: Vec<String>)
    ensures
        names_view(keys@) == merged_keys(entries_view(x@), entries_view(y@)),
{
    let mut keys: Vec<String> = Vec::new();
    proof {
        assert(names_view(keys@) =~= Seq::empty());
    }
    add_keys(&mut keys, x);
    add_keys(&mut keys, y);
    keys
}

/// Puts the keys of an object in their places in a sorted list of keys.
fn add_keys(keys: &mut Vec<String>, x: &Vec<(String, Value)>)
    ensures
        names_view(final(keys)@) == insert_keys(names_view(old(keys)@), entries_view(x@)),
{
    let ghost all = entries_view(x@);
    let ghost start = names_view(keys@);
    let mut i: usize = 0;
    proof {
        assert(all.skip(0) == all);
    }
    while i < x.len()
        invariant
            i <= x@.len(),
            all == entries_view(x@),
            insert_keys(start, all) == insert_keys(names_view(keys@), all.skip(i as int)),
        decreases x.len() - i,
    {
        proof {
            assert(all.skip(i as int).drop_first() == all.skip(i + 1));
        }
        insert_sorted(keys, &x[i].0);
        i += 1;
    }
}

impl Value {
    /// Whether two values are the same tree: the same kinds, numbers, texts,
    /// items and entries in the same order. Floating-point numbers are the
    /// same when their bits are.
    pub fn equals(&self, other: &Value) -> (r: bool)
        ensures
            r == (self@ == other@),
        decreases self,
    {
        match (self, other) {
            (Value::Null, Value::Null) => true,
            (Value::Bool(a), Value::Bool(b)) => *a == *b,
            (Value::Int(a), Value::Int(b)) => *a == *b,
            (Value::UInt(a), Value::UInt(b)) => *a == *b,
            (Value::F32(a), Value::F32(b)) => *a == *b,
            (Value::F64(a), Value::F64(b)) => *a == *b,
            (Value::Str(a), Value::Str(b)) => str_eq(a.as_str(), b.as_str()),
            (Value::Array(x), Value::Array(y)) => {
                proof {
                    lemma_array_view(*x);
                    lemma_array_view(*y);
                    assert(values_view(x@).len() == x@.len());
                    assert(values_view(y@).len() == y@.len());
                }
                if x.len() != y.len() {
                    return false;
                }
                let mut i: usize = 0;
                while i < x.len()
                    invariant
                        i <= x@.len(),
                        x@.len() == y@.len(),
                        self == Value::Array(*x),
                        self@ == ValueView::Array(values_view(x@)),
                        other@ == ValueView::Array(values_view(y@)),
                        forall|j: int| 0 <= j < i ==> x@[j]@ == y@[j]@,
                    decreases x.len() - i,
                {
                    proof {
                        assert(decreases_to!(*self => self->Array_0));
                        assert(decreases_to!(*x => x[i as int]));
                    }
                    if !x[i].equals(&y[i]) {
                        proof {
                            assert(values_view(x@)[i as int] != values_view(y@)[i as int]);
                        }
                        return false;
                    }
                    i += 1;
                }
                proof {
                    assert(values_view(x@) =~= values_view(y@));
                }
                true
            },
            (Value::Object(x), Value::Object(y)) => {
                proof {
                    lemma_object_view(*x);
                    lemma_object_view(*y);
                    assert(entries_view(x@).len() == x@.len());
                    assert(entries_view(y@).len() == y@.len());
                }
                if x.len() != y.len() {
                    return false;
                }
                let mut i: usize = 0;
                while i < x.len()
                    invariant
                        i <= x@.len(),
                        x@.len() == y@.len(),
                        self == Value::Object(*x),
                        self@ == ValueView::Object(entries_view(x@)),
                        other@ == ValueView::Object(entries_view(y@)),
                        forall|j: int|
                            0 <= j < i ==> x@[j].0@ == y@[j].0@ && x@[j].1@ == y@[j].1@,
                    decreases x.len() - i,
                {
                    proof {
                        assert(decreases_to!(*self => self->Object_0));
                        assert(decreases_to!(*x => x[i as int]));
                    }
                    if !str_eq(x[i].0.as_str(), y[i].0.as_str()) || !x[i].1.equals(&y[i].1) {
                        proof {
                            assert(entries_view(x@)[i as int] != entries_view(y@)[i as int]);
                        }
                        return false;
                    }
                    i += 1;
                }
                proof {
                    assert(entries_view(x@) =~= entries_view(y@));
                }
                true
            },
            _ => false,
        }
    }
}

/// Compares `current` against `baseline`.
#[verifier::rlimit(40)]
pub fn compare_json(baseline: &Value, current: &Value) -> (r: JsonDiff)
    ensures
        r@ == diff_spec(baseline@, current@),
    decreases baseline,
{
    match (baseline, current) {
        (Value::Object(x), Value::Object(y)) => {
            proof {
                lemma_object_view(*x);
                lemma_object_view(*y);
            }
            let keys = sorted_keys(x, y);
            let ghost ks = names_view(keys@);
            let mut out: Vec<(String, JsonDiff)> = Vec::new();
            let mut i: usize = 0;
            proof {
                assert(object_diff_view(out@) =~= Seq::empty());
                assert(object_diff_view(out@) + object_entries(baseline@, current@, ks, 0)
                    =~= object_entries(baseline@, current@, ks, 0));
            }
            while i < keys.len()
                invariant
                    i <= keys@.len(),
                    ks == names_view(keys@),
                    baseline == Value::Object(*x),
                    baseline@ == ValueView::Object(entries_view(x@)),
                    current@ == ValueView::Object(entries_view(y@)),
                    object_entries(baseline@, current@, ks, 0) == object_diff_view(out@)
                        + object_entries(baseline@, current@, ks, i as nat),
                decreases keys.len() - i,
            {
                let ghost head = object_diff_view(out@);
                let ghost rest = object_entries(baseline@, current@, ks, (i + 1) as nat);
                let k = &keys[i];
                proof {
                    assert(ks[i as int] == k@);
                }
                let entry = match (find_key(x, k.as_str()), find_key(y, k.as_str())) {
                    (Some(p), Some(q)) => {
                        proof {
                            assert(decreases_to!(*baseline => baseline->Object_0));
                            assert(decreases_to!(*x => x[p as int]));
                        }
                        let d = compare_json(&x[p].1, &y[q].1);
                        match d {
                            JsonDiff::Unchanged(_) => None,
                            _ => Some(d),
                        }
                    },
                    (Some(p), None) => Some(JsonDiff::Removed(x[p].1.clone())),
                    (None, Some(q)) => Some(JsonDiff::Added(y[q].1.clone())),
                    (None, None) => None,
                };
                match entry {
                    Some(d) => {
                        out.push((k.clone(), d));
                        proof {
                            assert(object_diff_view(out@) =~= head.push((k@, d@)));
                            assert(head + (seq![(k@, d@)] + rest) =~= head.push((k@, d@)) + rest);
                        }
                    },
                    None => {},
                }
                i += 1;
            }
            proof {
                assert(object_diff_view(out@) + Seq::<(Seq<char>, DiffView)>::empty()
                    =~= object_diff_view(out@));
            }
            if out.len() == 0 {
                let empty: Vec<(String, Value)> = Vec::new();
                proof {
                    lemma_object_view(empty);
                    assert(entries_view(empty@) =~= Seq::empty());
                }
                JsonDiff::Unchanged(Value::Object(empty))
            } else {
                proof {
                    lemma_object_diff_view(out);
                }
                JsonDiff::ObjectDiff(out)
            }
        },
        (Value::Array(x), Value::Array(y)) => {
            proof {
                lemma_array_view(*x);
                lemma_array_view(*y);
            }
            let n = if x.len() > y.len() {
                x.len()
            } else {
                y.len()
            };
            let mut out: Vec<(usize, JsonDiff)> = Vec::new();
            let mut i: usize = 0;
            proof {
                assert(array_diff_view(out@) =~= Seq::empty());
                assert(array_diff_view(out@) + array_entries(baseline@, current@, 0)
                    =~= array_entries(baseline@, current@, 0));
            }
            while i < n
                invariant
                    i <= n,
                    n == if x@.len() > y@.len() {
                        x@.len()
                    } else {
                        y@.len()
                    },
                    baseline == Value::Array(*x),
                    baseline@ == ValueView::Array(values_view(x@)),
                    current@ == ValueView::Array(values_view(y@)),
                    array_entries(baseline@, current@, 0) == array_diff_view(out@) + array_entries(
                        baseline@,
                        current@,
                        i as nat,
                    ),
                decreases n - i,
            {
                let ghost head = array_diff_view(out@);
                let ghost rest = array_entries(baseline@, current@, (i + 1) as nat);
                let entry = if i < x.len() && i < y.len() {
                    proof {
                        assert(decreases_to!(*baseline => baseline->Array_0));
                        assert(decreases_to!(*x => x[i as int]));
                    }
                    let d = compare_json(&x[i], &y[i]);
                    match d {
                        JsonDiff::Unchanged(_) => None,
                        _ => Some(d),
                    }
                } else if i < x.len() {
                    Some(JsonDiff::Removed(x[i].clone()))
                } else {
                    Some(JsonDiff::Added(y[i].clone()))
                };
                match entry {
                    Some(d) => {
                        out.push((i, d));
                        proof {
                            assert(array_diff_view(out@) =~= head.push((i as nat, d@)));
                            assert(head + (seq![(i as nat, d@)] + rest) =~= head.push(
                                (i as nat, d@),
                            ) + rest);
                        }
                    },
                    None => {},
                }
                i += 1;
            }
            proof {
                assert(array_diff_view(out@) + Seq::<(nat, DiffView)>::empty() =~= array_diff_view(
                    out@,
                ));
            }
            if out.len() == 0 {
                let empty: Vec<Value> = Vec::new();
                proof {
                    lemma_array_view(empty);
                    assert(values_view(empty@) =~= Seq::empty());
                }
                JsonDiff::Unchanged(Value::Array(empty))
            } else {
                proof {
                    lemma_array_diff_view(out);
                }
                JsonDiff::ArrayDiff(out)
            }
        },
        _ => if baseline.equals(current) {
            JsonDiff::Unchanged(baseline.clone())
        } else {
            JsonDiff::Modified { old: baseline.clone(), new: current.clone() }
        },
    }
}

/// Whether a diff holds an addition, a removal or a modification anywhere.
pub open spec fn has_changes(d: DiffView) -> bool
    decreases d,
{
    match d {
        DiffView::Added(_) => true,
        DiffView::Removed(_) => true,
        DiffView::Modified { .. } => true,
        DiffView::Unchanged(_) => false,
        DiffView::ObjectDiff(entries) => exists|i: int|
            0 <= i < entries.len() && has_changes(#[trigger] entries[i].1),
        DiffView::ArrayDiff(entries) => exists|i: int|
            0 <= i < entries.len() && has_changes(#[trigger] entries[i].1),
    }
}

/// A diff read in the other direction: additions and removals change
/// places, a modification swaps its sides, keys and positions stay.
pub open spec fn mirror(d: DiffView) -> DiffView
    decreases d,
{
    match d {
        DiffView::Added(v) => DiffView::Removed(v),
        DiffView::Removed(v) => DiffView::Added(v),
        DiffView::Modified { old, new } => DiffView::Modified { old: new, new: old },
        DiffView::Unchanged(v) => DiffView::Unchanged(v),
        DiffView::ObjectDiff(entries) => DiffView::ObjectDiff(
            Seq::new(
                entries.len(),
                |i: int|
                    if 0 <= i < entries.len() {
                        (entries[i].0, mirror(entries[i].1))
                    } else {
                        (Seq::empty(), DiffView::Unchanged(ValueView::Null))
                    },
            ),
        ),
        DiffView::ArrayDiff(entries) => DiffView::ArrayDiff(
            Seq::new(
                entries.len(),
                |i: int|
                    if 0 <= i < entries.len() {
                        (entries[i].0, mirror(entries[i].1))
                    } else {
                        (0nat, DiffView::Unchanged(ValueView::Null))
                    },
            ),
        ),
    }
}

/// The entries of an object diff, each read in the other direction.
pub open spec fn mirror_object(entries: Seq<(Seq<char>, DiffView)>) -> Seq<(Seq<char>, DiffView)> {
    Seq::new(entries.len(), |i: int| (entries[i].0, mirror(entries[i].1)))
}

/// The entries of an array diff, each read in the other direction.
pub open spec fn mirror_array(entries: Seq<(nat, DiffView)>) -> Seq<(nat, DiffView)> {
    Seq::new(entries.len(), |i: int| (entries[i].0, mirror(entries[i].1)))
}

proof fn lemma_mirror_object(entries: Seq<(Seq<char>, DiffView)>)
    ensures
        mirror(DiffView::ObjectDiff(entries)) == DiffView::ObjectDiff(mirror_object(entries)),
{
    assert(mirror(DiffView::ObjectDiff(entries))->ObjectDiff_0 =~= mirror_object(entries));
}

proof fn lemma_mirror_array(entries: Seq<(nat, DiffView)>)
    ensures
        mirror(DiffView::ArrayDiff(entries)) == DiffView::ArrayDiff(mirror_array(entries)),
{
    assert(mirror(DiffView::ArrayDiff(entries))->ArrayDiff_0 =~= mirror_array(entries));
}

/// A value compared with itself is unchanged: the diff holds no addition,
/// removal or modification.
pub proof fn lemma_diff_identity(a: ValueView)
    ensures
        diff_spec(a, a) is Unchanged,
        !has_changes(diff_spec(a, a)),
    decreases a, 1nat, 0nat,
{
    match a {
        ValueView::Object(x) => {
            lemma_object_identity(a, merged_keys(x, x), 0);
        },
        ValueView::Array(x) => {
            lemma_array_identity(a, 0);
        },
        _ => {},
    }
}

proof fn lemma_object_identity(a: ValueView, keys: Seq<Seq<char>>, i: nat)
    ensures
        object_entries(a, a, keys, i).len() == 0,
    decreases a, 0nat, keys.len() - i,
{
    if i < keys.len() && a is Object {
        let x = a->Object_0;
        lemma_object_identity(a, keys, i + 1);
        match key_index(x, keys[i as int]) {
            Some(p) => {
                if 0 <= p < x.len() {
                    lemma_diff_identity(x[p].1);
                }
            },
            None => {},
        }
    }
}

proof fn lemma_array_identity(a: ValueView, i: nat)
    ensures
        array_entries(a, a, i).len() == 0,
    decreases a, 0nat, (if a is Array {
        a->Array_0.len()
    } else {
        0
    }) - i,
{
    if a is Array && i < a->Array_0.len() {
        lemma_array_identity(a, i + 1);
        lemma_diff_identity(a->Array_0[i as int]);
    }
}

/// Putting a key in its place keeps a sorted list sorted, and adds that key
/// and no other.
#[verifier::rlimit(40)]
pub proof fn lemma_insert_key(s: Seq<Seq<char>>, k: Seq<char>)
    requires
        strictly_sorted(s),
    ensures
        strictly_sorted(insert_key(s, k)),
        forall|j: Seq<char>| #[trigger] insert_key(s, k).contains(j) <==> (j == k || s.contains(j)),
    decreases s.len(),
{
    let r = insert_key(s, k);
    if s.len() == 0 {
        assert(r[0] == k);
    } else if k == s[0] {
        assert(s.contains(k));
    } else if key_lt(k, s[0]) {
        assert forall|i: int, j: int| 0 <= i < j < r.len() implies key_lt(
            #[trigger] r[i],
            #[trigger] r[j],
        ) by {
            if i == 0 {
                if j > 1 {
                    assert(key_lt(s[0], s[j - 1]));
                    lemma_key_lt_transitive(k, s[0], s[j - 1]);
                }
            } else {
                assert(key_lt(s[i - 1], s[j - 1]));
            }
        }
        assert forall|j: Seq<char>| #[trigger] r.contains(j) <==> (j == k || s.contains(j)) by {
            if r.contains(j) {
                let i = choose|i: int| 0 <= i < r.len() && r[i] == j;
                if i > 0 {
                    assert(s[i - 1] == j);
                }
            }
            if j == k {
                assert(r[0] == j);
            }
            if s.contains(j) {
                let i = choose|i: int| 0 <= i < s.len() && s[i] == j;
                assert(r[i + 1] == j);
            }
        }
    } else {
        let tail = s.drop_first();
        let t = insert_key(tail, k);
        assert forall|i: int, j: int| 0 <= i < j < tail.len() implies key_lt(
            #[trigger] tail[i],
            #[trigger] tail[j],
        ) by {
            assert(key_lt(s[i + 1], s[j + 1]));
        }
        lemma_insert_key(tail, k);
        lemma_key_lt_total(k, s[0]);
        assert forall|i: int, j: int| 0 <= i < j < r.len() implies key_lt(
            #[trigger] r[i],
            #[trigger] r[j],
        ) by {
            if i == 0 {
                let e = t[j - 1];
                assert(t.contains(e));
                if e != k {
                    assert(tail.contains(e));
                    let m = choose|m: int| 0 <= m < tail.len() && tail[m] == e;
                    assert(key_lt(s[0], s[m + 1]));
                }
            } else {
                assert(key_lt(t[i - 1], t[j - 1]));
            }
        }
        assert forall|j: Seq<char>| #[trigger] r.contains(j) <==> (j == k || s.contains(j)) by {
            if r.contains(j) {
                let i = choose|i: int| 0 <= i < r.len() && r[i] == j;
                if i > 0 {
                    assert(t[i - 1] == j);
                    assert(t.contains(j));
                    if j != k {
                        let m = choose|m: int| 0 <= m < tail.len() && tail[m] == j;
                        assert(s[m + 1] == j);
                    }
                } else {
                    assert(s[0] == j);
                }
            }
            if j == k {
                assert(t.contains(k));
                let m = choose|m: int| 0 <= m < t.len() && t[m] == k;
                assert(r[m + 1] == j);
            }
            if s.contains(j) {
                let i = choose|i: int| 0 <= i < s.len() && s[i] == j;
                if i == 0 {
                    assert(r[0] == j);
                } else {
                    assert(tail[i - 1] == j);
                    assert(tail.contains(j));
                    assert(t.contains(j));
                    let m = choose|m: int| 0 <= m < t.len() && t[m] == j;
                    assert(r[m + 1] == j);
                }
            }
        }
    }
}

/// Whether `k` is a key of one of the entries.
pub open spec fn has_key<T>(entries: Seq<(Seq<char>, T)>, k: Seq<char>) -> bool {
    exists|i: int| 0 <= i < entries.len() && (#[trigger] entries[i]).0 == k
}

/// Putting the keys of an object in their places keeps a sorted list
/// sorted, and adds those keys and no others.
pub proof fn lemma_insert_keys<T>(s: Seq<Seq<char>>, entries: Seq<(Seq<char>, T)>)
    requires
        strictly_sorted(s),
    ensures
        strictly_sorted(insert_keys(s, entries)),
        forall|j: Seq<char>| #[trigger]
            insert_keys(s, entries).contains(j) <==> (s.contains(j) || has_key(entries, j)),
    decreases entries.len(),
{
    if entries.len() > 0 {
        let s1 = insert_key(s, entries[0].0);
        let tail = entries.drop_first();
        lemma_insert_key(s, entries[0].0);
        lemma_insert_keys(s1, tail);
        assert forall|j: Seq<char>| #[trigger]
            insert_keys(s, entries).contains(j) <==> (s.contains(j) || has_key(
                entries,
                j,
            )) by {
            if has_key(tail, j) {
                let i = choose|i: int| 0 <= i < tail.len() && (#[trigger] tail[i]).0 == j;
                assert(entries[i + 1].0 == j);
            }
            if has_key(entries, j) {
                let i = choose|i: int| 0 <= i < entries.len() && (#[trigger] entries[i]).0 == j;
                if i > 0 {
                    assert(tail[i - 1].0 == j);
                }
            }
            if j == entries[0].0 {
                assert(has_key(entries, j));
            }
        }
    }
}

/// Two sorted lists with the same keys are the same list.
#[verifier::rlimit(40)]
pub proof fn lemma_sorted_unique(s: Seq<Seq<char>>, t: Seq<Seq<char>>)
    requires
        strictly_sorted(s),
        strictly_sorted(t),
        forall|j: Seq<char>| s.contains(j) <==> t.contains(j),
    ensures
        s == t,
    decreases s.len(),
{
    if s.len() == 0 {
        if t.len() > 0 {
            assert(t.contains(t[0]));
            assert(s.contains(t[0]));
        }
        assert(s =~= t);
    } else {
        assert(s.contains(s[0]));
        assert(t.contains(s[0]));
        let j0 = choose|j: int| 0 <= j < t.len() && t[j] == s[0];
        assert(t.contains(t[0]));
        assert(s.contains(t[0]));
        let i0 = choose|i: int| 0 <= i < s.len() && s[i] == t[0];
        if i0 > 0 && j0 > 0 {
            assert(key_lt(s[0], s[i0]));
            assert(key_lt(t[0], t[j0]));
            lemma_key_lt_transitive(s[0], t[0], s[0]);
            lemma_key_lt_irreflexive(s[0]);
        }
        assert(s[0] == t[0]);
        let s1 = s.drop_first();
        let t1 = t.drop_first();
        assert forall|i: int, j: int| 0 <= i < j < s1.len() implies key_lt(
            #[trigger] s1[i],
            #[trigger] s1[j],
        ) by {
            assert(key_lt(s[i + 1], s[j + 1]));
        }
        assert forall|i: int, j: int| 0 <= i < j < t1.len() implies key_lt(
            #[trigger] t1[i],
            #[trigger] t1[j],
        ) by {
            assert(key_lt(t[i + 1], t[j + 1]));
        }
        assert forall|j: Seq<char>| s1.contains(j) <==> t1.contains(j) by {
            lemma_key_lt_irreflexive(s[0]);
            if s1.contains(j) {
                let i = choose|i: int| 0 <= i < s1.len() && s1[i] == j;
                assert(s[i + 1] == j);
                assert(key_lt(s[0], s[i + 1]));
                assert(s.contains(j));
                assert(t.contains(j));
                let m = choose|m: int| 0 <= m < t.len() && t[m] == j;
                assert(m > 0);
                assert(t1[m - 1] == j);
            }
            if t1.contains(j) {
                let i = choose|i: int| 0 <= i < t1.len() && t1[i] == j;
                assert(t[i + 1] == j);
                assert(key_lt(t[0], t[i + 1]));
                assert(t.contains(j));
                assert(s.contains(j));
                let m = choose|m: int| 0 <= m < s.len() && s[m] == j;
                assert(m > 0);
                assert(s1[m - 1] == j);
            }
        }
        lemma_sorted_unique(s1, t1);
        assert(s =~= seq![s[0]] + s1);
        assert(t =~= seq![t[0]] + t1);
    }
}

/// The sorted keys of two objects do not depend on which object comes first.
pub proof fn lemma_merged_keys_symmetric(
    x: Seq<(Seq<char>, ValueView)>,
    y: Seq<(Seq<char>, ValueView)>,
)
    ensures
        merged_keys(x, y) == merged_keys(y, x),
{
    let e = Seq::<Seq<char>>::empty();
    lemma_insert_keys(e, x);
    lemma_insert_keys(insert_keys(e, x), y);
    lemma_insert_keys(e, y);
    lemma_insert_keys(insert_keys(e, y), x);
    lemma_sorted_unique(merged_keys(x, y), merged_keys(y, x));
}

/// The diff of `a` against `b` is the diff of `b` against `a` read in the
/// other direction: every addition becomes a removal and every removal an
/// addition, a modification swaps its sides, and the keys of objects and
/// the positions in arrays stay as they are.
pub proof fn lemma_diff_mirror(a: ValueView, b: ValueView)
    ensures
        diff_spec(b, a) == mirror(diff_spec(a, b)),
    decreases a, 1nat, 0nat,
{
    match (a, b) {
        (ValueView::Object(x), ValueView::Object(y)) => {
            lemma_merged_keys_symmetric(x, y);
            let keys = merged_keys(x, y);
            lemma_object_mirror(a, b, keys, 0);
            lemma_mirror_object(object_entries(a, b, keys, 0));
        },
        (ValueView::Array(x), ValueView::Array(y)) => {
            lemma_array_mirror(a, b, 0);
            lemma_mirror_array(array_entries(a, b, 0));
        },
        _ => {},
    }
}

proof fn lemma_object_mirror(a: ValueView, b: ValueView, keys: Seq<Seq<char>>, i: nat)
    ensures
        object_entries(b, a, keys, i) == mirror_object(object_entries(a, b, keys, i)),
    decreases a, 0nat, keys.len() - i,
{
    if i >= keys.len() || !(a is Object) || !(b is Object) {
        assert(object_entries(b, a, keys, i) =~= mirror_object(object_entries(a, b, keys, i)));
    } else {
        let x = a->Object_0;
        let y = b->Object_0;
        let k = keys[i as int];
        lemma_object_mirror(a, b, keys, i + 1);
        let rest = object_entries(a, b, keys, i + 1);
        match (key_index(x, k), key_index(y, k)) {
            (Some(p), Some(q)) => {
                if 0 <= p < x.len() && 0 <= q < y.len() {
                    lemma_diff_mirror(x[p].1, y[q].1);
                    let d = diff_spec(x[p].1, y[q].1);
                    assert(mirror_object(seq![(k, d)] + rest) =~= seq![(k, mirror(d))]
                        + mirror_object(rest));
                }
            },
            (Some(p), None) => {
                if 0 <= p < x.len() {
                    let d = DiffView::Removed(x[p].1);
                    assert(mirror_object(seq![(k, d)] + rest) =~= seq![(k, mirror(d))]
                        + mirror_object(rest));
                }
            },
            (None, Some(q)) => {
                if 0 <= q < y.len() {
                    let d = DiffView::Added(y[q].1);
                    assert(mirror_object(seq![(k, d)] + rest) =~= seq![(k, mirror(d))]
                        + mirror_object(rest));
                }
            },
            (None, None) => {},
        }
    }
}

proof fn lemma_array_mirror(a: ValueView, b: ValueView, i: nat)
    ensures
        array_entries(b, a, i) == mirror_array(array_entries(a, b, i)),
    decreases a, 0nat, (if a is Array && b is Array {
        if a->Array_0.len() > b->Array_0.len() {
            a->Array_0.len()
        } else {
            b->Array_0.len()
        }
    } else {
        0
    }) - i,
{
    if !(a is Array) || !(b is Array) {
        assert(array_entries(b, a, i) =~= mirror_array(array_entries(a, b, i)));
    } else {
        let x = a->Array_0;
        let y = b->Array_0;
        if i >= x.len() && i >= y.len() {
            assert(array_entries(b, a, i) =~= mirror_array(array_entries(a, b, i)));
        } else {
            lemma_array_mirror(a, b, i + 1);
            let rest = array_entries(a, b, i + 1);
            if i < x.len() && i < y.len() {
                lemma_diff_mirror(x[i as int], y[i as int]);
                let d = diff_spec(x[i as int], y[i as int]);
                assert(mirror_array(seq![(i, d)] + rest) =~= seq![(i, mirror(d))] + mirror_array(
                    rest,
                ));
            } else if i < x.len() {
                let d = DiffView::Removed(x[i as int]);
                assert(mirror_array(seq![(i, d)] + rest) =~= seq![(i, mirror(d))] + mirror_array(
                    rest,
                ));
            } else {
                let d = DiffView::Added(y[i as int]);
                assert(mirror_array(seq![(i, d)] + rest) =~= seq![(i, mirror(d))] + mirror_array(
                    rest,
                ));
            }
        }
    }
}

/// The keys of the entries of an object diff, entry by entry.
pub open spec fn entry_keys(entries: Seq<(Seq<char>, DiffView)>) -> Seq<Seq<char>> {
    Seq::new(entries.len(), |j: int| entries[j].0)
}

/// The entries of an object diff come in strictly rising key order, each
/// key once, and every key is a key of one of the two objects.
pub proof fn lemma_object_diff_sorted(a: ValueView, b: ValueView)
    requires
        diff_spec(a, b) is ObjectDiff,
    ensures
        strictly_sorted(entry_keys(diff_spec(a, b)->ObjectDiff_0)),
        forall|j: int|
            0 <= j < diff_spec(a, b)->ObjectDiff_0.len() ==> has_key(
                a->Object_0,
                #[trigger] diff_spec(a, b)->ObjectDiff_0[j].0,
            ) || has_key(b->Object_0, diff_spec(a, b)->ObjectDiff_0[j].0),
{
    let x = a->Object_0;
    let y = b->Object_0;
    let keys = merged_keys(x, y);
    let e = Seq::<Seq<char>>::empty();
    lemma_insert_keys(e, x);
    lemma_insert_keys(insert_keys(e, x), y);
    lemma_object_entries_sorted(a, b, keys, 0);
    let entries = object_entries(a, b, keys, 0);
    assert forall|j: int| 0 <= j < entries.len() implies has_key(x, #[trigger] entries[j].0)
        || has_key(y, entries[j].0) by {
        let m = choose|m: int| 0 <= m < keys.len() && keys[m] == entries[j].0;
        assert(keys.contains(keys[m]));
        assert(!e.contains(keys[m]));
    }
}

proof fn lemma_object_entries_sorted(a: ValueView, b: ValueView, keys: Seq<Seq<char>>, i: nat)
    requires
        strictly_sorted(keys),
    ensures
        strictly_sorted(entry_keys(object_entries(a, b, keys, i))),
        forall|j: int|
            0 <= j < object_entries(a, b, keys, i).len() ==> exists|m: int|
                i <= m < keys.len() && keys[m] == (#[trigger] object_entries(a, b, keys, i)[j]).0,
    decreases keys.len() - i,
{
    let entries = object_entries(a, b, keys, i);
    if i < keys.len() && a is Object && b is Object {
        lemma_object_entries_sorted(a, b, keys, i + 1);
        let rest = object_entries(a, b, keys, i + 1);
        let k = keys[i as int];
        if entries.len() == rest.len() + 1 {
            assert(entries =~= seq![entries[0]] + rest);
            assert(entries[0].0 == k);
            assert forall|j: int| 0 <= j < entries.len() implies exists|m: int|
                i <= m < keys.len() && keys[m] == (#[trigger] entries[j]).0 by {
                if j == 0 {
                    assert(keys[i as int] == entries[0].0);
                } else {
                    assert(entries[j] == rest[j - 1]);
                    let m = choose|m: int| i + 1 <= m < keys.len() && keys[m] == rest[j - 1].0;
                    assert(keys[m] == entries[j].0);
                }
            }
            let ek = entry_keys(entries);
            assert forall|p: int, q: int| 0 <= p < q < ek.len() implies key_lt(
                #[trigger] ek[p],
                #[trigger] ek[q],
            ) by {
                assert(entries[q] == rest[q - 1]);
                if p == 0 {
                    let m = choose|m: int| i + 1 <= m < keys.len() && keys[m] == rest[q - 1].0;
                    assert(key_lt(keys[i as int], keys[m]));
                } else {
                    assert(entries[p] == rest[p - 1]);
                    assert(key_lt(entry_keys(rest)[p - 1], entry_keys(rest)[q - 1]));
                }
            }
        } else {
            assert(entries =~= rest);
            assert forall|j: int| 0 <= j < entries.len() implies exists|m: int|
                i <= m < keys.len() && keys[m] == (#[trigger] entries[j]).0 by {
                let m = choose|m: int| i + 1 <= m < keys.len() && keys[m] == rest[j].0;
                assert(keys[m] == entries[j].0);
            }
        }
    }
}

/// The entries of an array diff come in rising order of their positions,
/// each position once, and every position is one of the longer array.
pub proof fn lemma_array_diff_sorted(a: ValueView, b: ValueView)
    requires
        diff_spec(a, b) is ArrayDiff,
    ensures
        forall|p: int, q: int|
            0 <= p < q < diff_spec(a, b)->ArrayDiff_0.len() ==> (#[trigger] diff_spec(
                a,
                b,
            )->ArrayDiff_0[p]).0 < (#[trigger] diff_spec(a, b)->ArrayDiff_0[q]).0,
        forall|p: int|
            0 <= p < diff_spec(a, b)->ArrayDiff_0.len() ==> (#[trigger] diff_spec(
                a,
                b,
            )->ArrayDiff_0[p]).0 < a->Array_0.len() || diff_spec(a, b)->ArrayDiff_0[p].0
                < b->Array_0.len(),
{
    assert(a is Array && b is Array);
    assert(diff_spec(a, b)->ArrayDiff_0 == array_entries(a, b, 0));
    lemma_array_entries_sorted(a, b, 0);
}

proof fn lemma_array_entries_sorted(a: ValueView, b: ValueView, i: nat)
    ensures
        forall|p: int, q: int|
            0 <= p < q < array_entries(a, b, i).len() ==> (#[trigger] array_entries(a, b, i)[p]).0
                < (#[trigger] array_entries(a, b, i)[q]).0,
        forall|p: int|
            0 <= p < array_entries(a, b, i).len() ==> i <= (#[trigger] array_entries(
                a,
                b,
                i,
            )[p]).0 && (array_entries(a, b, i)[p].0 < a->Array_0.len() || array_entries(
                a,
                b,
                i,
            )[p].0 < b->Array_0.len()),
    decreases (if a is Array && b is Array {
        if a->Array_0.len() > b->Array_0.len() {
            a->Array_0.len()
        } else {
            b->Array_0.len()
        }
    } else {
        0
    }) - i,
{
    let entries = array_entries(a, b, i);
    if a is Array && b is Array && (i < a->Array_0.len() || i < b->Array_0.len()) {
        lemma_array_entries_sorted(a, b, i + 1);
        let rest = array_entries(a, b, i + 1);
        if entries.len() == rest.len() + 1 {
            assert(entries =~= seq![entries[0]] + rest);
            assert(entries[0].0 == i);
            assert forall|p: int| 0 <= p < entries.len() implies i <= (#[trigger] entries[p]).0
                && (entries[p].0 < a->Array_0.len() || entries[p].0 < b->Array_0.len()) by {
                if p > 0 {
                    assert(entries[p] == rest[p - 1]);
                }
            }
            assert forall|p: int, q: int| 0 <= p < q < entries.len() implies (
            #[trigger] entries[p]).0 < (#[trigger] entries[q]).0 by {
                assert(entries[q] == rest[q - 1]);
                if p > 0 {
                    assert(entries[p] == rest[p - 1]);
                }
            }
        } else {
            assert(entries =~= rest);
        }
    }
}

} // verus!
