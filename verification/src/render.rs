//! Diffs laid out for display: a flat list of changed values along dotted
//! paths, and the coloured text lines made of their renderings.

use vstd::prelude::*;
use crate::diff::{
    array_diff_view, entry_keys, has_key, insert_keys, insert_sorted, key_index,
    lemma_array_diff_view, lemma_insert_keys, lemma_key_lt_irreflexive, lemma_object_diff_view,
    lemma_sorted_unique, object_diff_view, strictly_sorted, DiffView, JsonDiff,
};
use crate::text::{
    char_index, chars_of, decimal_text, find_char, moved, names_view, push_char, push_chars,
    push_decimal, str_eq, string_of,
};
use crate::value::{Value, ValueView};

verus! {

/// The colour of a line of a displayed diff.
#[derive(Clone, Copy, Debug, PartialEq, Eq, Structural)]
pub enum DiffColor {
    /// A value of the baseline that is gone or was replaced.
    Red,
    /// A value of the current tree that is new or replaces another.
    Green,
}

/// A changed value with the path that leads to it.
#[derive(Debug, PartialEq)]
pub struct DiffLeaf {
    pub path: String,
    pub color: DiffColor,
    pub value: Value,
}

/// The mathematical form of a `DiffLeaf`.
pub struct LeafView {
    pub path: Seq<char>,
    pub color: DiffColor,
    pub value: ValueView,
}

impl View for DiffLeaf {
    type V = LeafView;

    open spec fn view(&self) -> LeafView {
        LeafView { path: self.path@, color: self.color, value: self.value@ }
    }
}

/// The views of a list of leaves, leaf by leaf.
pub open spec fn leaves_view(leaves: Seq<DiffLeaf>) -> Seq<LeafView> {
    Seq::new(leaves.len(), |i: int| leaves[i]@)
}

/// The path of the field `key` below `path`.
pub open spec fn child_path(path: Seq<char>, key: Seq<char>) -> Seq<char> {
    if path.len() == 0 {
        key
    } else {
        path + seq!['.'] + key
    }
}

/// The path of the element at `index` below `path`.
pub open spec fn index_path(path: Seq<char>, index: nat) -> Seq<char> {
    path + seq!['['] + decimal_text(index) + seq![']']
}

/// The keys of the entries of an object diff, each once, in rising order.
pub open spec fn diff_keys(entries: Seq<(Seq<char>, DiffView)>) -> Seq<Seq<char>> {
    insert_keys(Seq::empty(), entries)
}

/// The keys of an object diff are displayed in strictly rising order,
/// whatever the order of its entries: each key of an entry once, and no
/// other.
pub proof fn lemma_diff_keys(entries: Seq<(Seq<char>, DiffView)>)
    ensures
        strictly_sorted(diff_keys(entries)),
        forall|k: Seq<char>| #[trigger] diff_keys(entries).contains(k) <==> has_key(entries, k),
{
    lemma_insert_keys(Seq::<Seq<char>>::empty(), entries);
    assert forall|k: Seq<char>| #[trigger]
        diff_keys(entries).contains(k) <==> has_key(entries, k) by {
        assert(!Seq::<Seq<char>>::empty().contains(k));
    }
}

/// The entry at `i` is the first with its key where no entry before it has
/// that key.
pub proof fn lemma_first_with_key(entries: Seq<(Seq<char>, DiffView)>, i: int)
    requires
        0 <= i < entries.len(),
        forall|m: int| 0 <= m < i ==> (#[trigger] entries[m]).0 != entries[i].0,
    ensures
        key_index(entries, entries[i].0) == Some(i),
    decreases i,
{
    if i > 0 {
        let tail = entries.drop_first();
        assert(entries[0].0 != entries[i].0);
        assert forall|m: int| 0 <= m < i - 1 implies (#[trigger] tail[m]).0 != tail[i - 1].0 by {
            assert(entries[m + 1].0 != entries[i].0);
        }
        lemma_first_with_key(tail, i - 1);
    }
}

/// An object diff whose entries stand in strictly rising key order, as
/// those of a comparison do, is displayed entry by entry in that order.
pub proof fn lemma_sorted_entries_in_order(entries: Seq<(Seq<char>, DiffView)>)
    requires
        strictly_sorted(entry_keys(entries)),
    ensures
        diff_keys(entries) == entry_keys(entries),
        forall|i: int|
            0 <= i < entries.len() ==> key_index(entries, (#[trigger] entries[i]).0) == Some(i),
{
    let keys = entry_keys(entries);
    lemma_diff_keys(entries);
    assert forall|k: Seq<char>| diff_keys(entries).contains(k) <==> keys.contains(k) by {
        if has_key(entries, k) {
            let i = choose|i: int| 0 <= i < entries.len() && (#[trigger] entries[i]).0 == k;
            assert(keys[i] == k);
        }
        if keys.contains(k) {
            let i = choose|i: int| 0 <= i < keys.len() && keys[i] == k;
            assert(entries[i].0 == k);
        }
    }
    lemma_sorted_unique(diff_keys(entries), keys);
    assert forall|i: int| 0 <= i < entries.len() implies key_index(
        entries,
        (#[trigger] entries[i]).0,
    ) == Some(i) by {
        assert forall|m: int| 0 <= m < i implies (#[trigger] entries[m]).0 != entries[i].0 by {
            assert(crate::diff::key_lt(keys[m], keys[i]));
            lemma_key_lt_irreflexive(keys[i]);
        }
        lemma_first_with_key(entries, i);
    }
}

/// The changed values of a diff in display order: the entries of an object
/// by rising key, those of an array in their order, and for a modification
/// the old value before the new one. What is unchanged has no leaf.
pub open spec fn leaves_spec(d: DiffView, path: Seq<char>) -> Seq<LeafView>
    decreases d, 1nat, 0nat,
{
    match d {
        DiffView::Added(v) => seq![LeafView { path, color: DiffColor::Green, value: v }],
        DiffView::Removed(v) => seq![LeafView { path, color: DiffColor::Red, value: v }],
        DiffView::Modified { old, new } => seq![
            LeafView { path, color: DiffColor::Red, value: old },
            LeafView { path, color: DiffColor::Green, value: new },
        ],
        DiffView::Unchanged(_) => Seq::empty(),
        DiffView::ObjectDiff(entries) => object_leaves(d, path, diff_keys(entries), 0),
        DiffView::ArrayDiff(_) => array_leaves(d, path, 0),
    }
}

/// The leaves of an object diff below the keys from index `i` on. Where
/// several entries have one key, the first of them is displayed.
pub open spec fn object_leaves(d: DiffView, path: Seq<char>, keys: Seq<Seq<char>>, i: nat) -> Seq<
    LeafView,
>
    decreases d, 0nat, keys.len() - i,
{
    if d is ObjectDiff && i < keys.len() {
        let k = keys[i as int];
        let rest = object_leaves(d, path, keys, i + 1);
        match key_index(d->ObjectDiff_0, k) {
            Some(p) => if 0 <= p < d->ObjectDiff_0.len() {
                leaves_spec(d->ObjectDiff_0[p].1, child_path(path, k)) + rest
            } else {
                rest
            },
            None => rest,
        }
    } else {
        Seq::empty()
    }
}

/// The leaves of the entries of an array diff from index `i` on.
pub open spec fn array_leaves(d: DiffView, path: Seq<char>, i: nat) -> Seq<LeafView>
    decreases d, 0nat, (if d is ArrayDiff {
        d->ArrayDiff_0.len()
    } else {
        0
    }) - i,
{
    if d is ArrayDiff && i < d->ArrayDiff_0.len() {
        let e = d->ArrayDiff_0[i as int];
        leaves_spec(e.1, index_path(path, e.0)) + array_leaves(d, path, i + 1)
    } else {
        Seq::empty()
    }
}

/// The path of the field `key` below `path`.
pub fn make_child_path(path: &str, key: &str) -> (r: String)
    ensures
        r@ == child_path(path@, key@),
{
    let p = chars_of(path);
    if p.len() == 0 {
        String::from_str(key)
    } else {
        let mut r = String::from_str(path);
        push_char(&mut r, '.');
        r.append(key);
        r
    }
}

/// The path of the element at `index` below `path`.
pub fn make_index_path(path: &str, index: usize) -> (r: String)
    ensures
        r@ == index_path(path@, index as nat),
{
    let mut r = String::from_str(path);
    push_char(&mut r, '[');
    push_decimal(&mut r, index as u64);
    push_char(&mut r, ']');
    r
}

/// The keys of the entries of an object diff, each once, in rising order.
pub fn sorted_diff_keys(entries: &Vec<(String, JsonDiff)>) -> (keys: Vec<String>)
    ensures
        names_view(keys@) == diff_keys(object_diff_view(entries@)),
{
    let ghost all = object_diff_view(entries@);
    let mut keys: Vec<String> = Vec::new();
    let mut i: usize = 0;
    proof {
        assert(all.skip(0) == all);
        assert(names_view(keys@) =~= Seq::empty());
    }
    while i < entries.len()
        invariant
            i <= entries@.len(),
            all == object_diff_view(entries@),
            diff_keys(all) == insert_keys(names_view(keys@), all.skip(i as int)),
        decreases entries.len() - i,
    {
        proof {
            assert(all.skip(i as int).drop_first() == all.skip(i + 1));
        }
        insert_sorted(&mut keys, &entries[i].0);
        i += 1;
    }
    keys
}

/// The index of the first entry of an object diff with the key `k`.
pub fn find_diff_key(entries: &Vec<(String, JsonDiff)>, k: &str) -> (r: Option<usize>)
    ensures
        match r {
            Some(i) => i < entries@.len() && key_index(object_diff_view(entries@), k@) == Some(
                i as int,
            ),
            None => key_index(object_diff_view(entries@), k@) is None,
        },
{
    let ghost all = object_diff_view(entries@);
    let mut i: usize = 0;
    proof {
        assert(all.skip(0) == all);
    }
    while i < entries.len()
        invariant
            i <= entries@.len(),
            all == object_diff_view(entries@),
            key_index(all, k@) == moved(key_index(all.skip(i as int), k@), i as int),
        decreases entries.len() - i,
    {
        proof {
            assert(all.skip(i as int).drop_first() == all.skip(i + 1));
        }
        if str_eq(entries[i].0.as_str(), k) {
            return Some(i);
        }
        i += 1;
    }
    None
}

/// The changed values of a diff below `path`, in display order.
#[verifier::rlimit(40)]
pub fn diff_leaves(diff: &JsonDiff, path: &str) -> (r: Vec<DiffLeaf>)
    ensures
        leaves_view(r@) == leaves_spec(diff@, path@),
    decreases diff,
{
    let mut out: Vec<DiffLeaf> = Vec::new();
    match diff {
        JsonDiff::Added(v) => {
            let leaf = DiffLeaf {
                path: String::from_str(path),
                color: DiffColor::Green,
                value: v.clone(),
            };
            out.push(leaf);
            proof {
                assert(leaves_view(out@) =~= seq![leaf@]);
            }
        },
        JsonDiff::Removed(v) => {
            let leaf = DiffLeaf {
                path: String::from_str(path),
                color: DiffColor::Red,
                value: v.clone(),
            };
            out.push(leaf);
            proof {
                assert(leaves_view(out@) =~= seq![leaf@]);
            }
        },
        JsonDiff::Modified { old, new } => {
            let first = DiffLeaf {
                path: String::from_str(path),
                color: DiffColor::Red,
                value: old.clone(),
            };
            let second = DiffLeaf {
                path: String::from_str(path),
                color: DiffColor::Green,
                value: new.clone(),
            };
            out.push(first);
            out.push(second);
            proof {
                assert(leaves_view(out@) =~= seq![first@, second@]);
            }
        },
        JsonDiff::Unchanged(_) => {
            proof {
                assert(leaves_view(out@) =~= Seq::empty());
            }
        },
        JsonDiff::ObjectDiff(entries) => {
            let keys = sorted_diff_keys(entries);
            let ghost ks = names_view(keys@);
            proof {
                lemma_object_diff_view(*entries);
                assert(leaves_view(out@) =~= Seq::empty());
                assert(leaves_view(out@) + object_leaves(diff@, path@, ks, 0) =~= object_leaves(
                    diff@,
                    path@,
                    ks,
                    0,
                ));
            }
            let mut i: usize = 0;
            while i < keys.len()
                invariant
                    i <= keys@.len(),
                    ks == names_view(keys@),
                    diff == JsonDiff::ObjectDiff(*entries),
                    diff@ == DiffView::ObjectDiff(object_diff_view(entries@)),
                    object_leaves(diff@, path@, ks, 0) == leaves_view(out@) + object_leaves(
                        diff@,
                        path@,
                        ks,
                        i as nat,
                    ),
                decreases keys.len() - i,
            {
                let ghost head = leaves_view(out@);
                let ghost rest = object_leaves(diff@, path@, ks, (i + 1) as nat);
                proof {
                    assert(ks[i as int] == keys@[i as int]@);
                }
                match find_diff_key(entries, keys[i].as_str()) {
                    Some(p) => {
                        proof {
                            assert(decreases_to!(*diff => diff->ObjectDiff_0));
                            assert(decreases_to!(*entries => entries[p as int]));
                            assert(object_diff_view(entries@)[p as int] == (
                                entries@[p as int].0@,
                                entries@[p as int].1@,
                            ));
                        }
                        let child = make_child_path(path, keys[i].as_str());
                        let mut sub = diff_leaves(&entries[p].1, child.as_str());
                        let ghost sub_view = leaves_view(sub@);
                        out.append(&mut sub);
                        proof {
                            assert(leaves_view(out@) =~= head + sub_view);
                            assert(head + (sub_view + rest) =~= (head + sub_view) + rest);
                        }
                    },
                    None => {},
                }
                i += 1;
            }
            proof {
                assert(leaves_view(out@) + Seq::<LeafView>::empty() =~= leaves_view(out@));
            }
        },
        JsonDiff::ArrayDiff(entries) => {
            proof {
                lemma_array_diff_view(*entries);
                assert(leaves_view(out@) =~= Seq::empty());
                assert(leaves_view(out@) + array_leaves(diff@, path@, 0) =~= array_leaves(
                    diff@,
                    path@,
                    0,
                ));
            }
            let mut i: usize = 0;
            while i < entries.len()
                invariant
                    i <= entries@.len(),
                    diff == JsonDiff::ArrayDiff(*entries),
                    diff@ == DiffView::ArrayDiff(array_diff_view(entries@)),
                    array_leaves(diff@, path@, 0) == leaves_view(out@) + array_leaves(
                        diff@,
                        path@,
                        i as nat,
                    ),
                decreases entries.len() - i,
            {
                let ghost head = leaves_view(out@);
                let ghost rest = array_leaves(diff@, path@, (i + 1) as nat);
                proof {
                    assert(decreases_to!(*diff => diff->ArrayDiff_0));
                    assert(decreases_to!(*entries => entries[i as int]));
                    assert(array_diff_view(entries@)[i as int] == (
                        entries@[i as int].0 as nat,
                        entries@[i as int].1@,
                    ));
                }
                let child = make_index_path(path, entries[i].0);
                let mut sub = diff_leaves(&entries[i].1, child.as_str());
                let ghost sub_view = leaves_view(sub@);
                out.append(&mut sub);
                proof {
                    assert(leaves_view(out@) =~= head + sub_view);
                    assert(head + (sub_view + rest) =~= (head + sub_view) + rest);
                }
                i += 1;
            }
            proof {
                assert(leaves_view(out@) + Seq::<LeafView>::empty() =~= leaves_view(out@));
            }
        },
    }
    out
}

/// A line without the carriage return that it ends with, if it does.
pub open spec fn strip_cr(line: Seq<char>) -> Seq<char> {
    if line.len() > 0 && line.last() == '\r' {
        line.drop_last()
    } else {
        line
    }
}

/// The lines of a text. A line ends with a line feed, before which a
/// carriage return is dropped; the last line need not end with one, and an
/// empty rest is no line.
pub open spec fn lines_of(t: Seq<char>) -> Seq<Seq<char>>
    decreases t.len(),
{
    if t.len() == 0 {
        Seq::empty()
    } else {
        match char_index(t, '\n') {
            Some(i) => if 0 <= i < t.len() {
                seq![strip_cr(t.take(i))] + lines_of(t.skip(i + 1))
            } else {
                seq![t]
            },
            None => seq![t],
        }
    }
}

/// The lines of a text.
#[verifier::rlimit(40)]
pub fn split_lines(text: &str) -> (r: Vec<String>)
    ensures
        names_view(r@) == lines_of(text@),
{
    let chars = chars_of(text);
    let n = chars.len();
    let mut out: Vec<String> = Vec::new();
    let mut start: usize = 0;
    proof {
        assert(chars@.skip(0) == chars@);
        assert(names_view(out@) =~= Seq::empty());
        assert(names_view(out@) + lines_of(chars@) =~= lines_of(chars@));
    }
    while start < n
        invariant
            start <= n,
            n == chars@.len(),
            chars@ == text@,
            lines_of(text@) == names_view(out@) + lines_of(chars@.skip(start as int)),
        decreases n - start,
    {
        let ghost head = names_view(out@);
        let ghost here = chars@.skip(start as int);
        match find_char(chars.as_slice(), start, n, '\n') {
            Some(i) => {
                let mut end = i;
                if end > start && chars[end - 1] == '\r' {
                    end = end - 1;
                }
                let line = string_of(vstd::slice::slice_subrange(chars.as_slice(), start, end));
                proof {
                    assert(here.take(i - start) == chars@.subrange(start as int, i as int));
                    assert(line@ == strip_cr(here.take(i - start)));
                    assert(here.skip(i - start + 1) == chars@.skip(i + 1));
                }
                out.push(line);
                proof {
                    let rest = lines_of(chars@.skip(i + 1));
                    assert(names_view(out@) =~= head.push(line@));
                    assert(head + (seq![line@] + rest) =~= head.push(line@) + rest);
                }
                start = i + 1;
            },
            None => {
                let line = string_of(vstd::slice::slice_subrange(chars.as_slice(), start, n));
                proof {
                    assert(line@ == here);
                }
                out.push(line);
                proof {
                    assert(names_view(out@) =~= head.push(line@));
                    assert(head + seq![line@] =~= head.push(line@));
                    assert(chars@.skip(n as int).len() == 0);
                    assert(names_view(out@) + lines_of(chars@.skip(n as int)) =~= names_view(out@));
                }
                start = n;
            },
        }
    }
    proof {
        assert(names_view(out@) + lines_of(chars@.skip(start as int)) =~= names_view(out@));
    }
    out
}

/// `n` levels of indentation, two spaces each.
pub open spec fn indent_text(n: nat) -> Seq<char>
    decreases n,
{
    if n == 0 {
        Seq::empty()
    } else {
        indent_text((n - 1) as nat) + seq![' ', ' ']
    }
}

impl DiffColor {
    /// The sign that leads a line of this colour.
    pub open spec fn sign(self) -> char {
        match self {
            DiffColor::Green => '+',
            DiffColor::Red => '-',
        }
    }

    /// The sign that leads a line of this colour.
    pub fn sign_char(&self) -> (c: char)
        ensures
            c == self.sign(),
    {
        match self {
            DiffColor::Green => '+',
            DiffColor::Red => '-',
        }
    }
}

/// What stands before the first line of a rendered value: the indentation,
/// the sign, and the path where there is one.
pub open spec fn first_prefix(path: Seq<char>, color: DiffColor, indent: nat) -> Seq<char> {
    indent_text(indent) + seq![color.sign(), ' '] + if path.len() == 0 {
        Seq::empty()
    } else {
        path + seq![':', ' ']
    }
}

/// What stands before each further line of a rendered value.
pub open spec fn next_prefix(color: DiffColor, indent: nat) -> Seq<char> {
    indent_text(indent) + seq![' ', ' ', color.sign(), ' ']
}

/// The display lines of one leaf whose value is rendered as `text`.
pub open spec fn leaf_lines_spec(leaf: LeafView, indent: nat, text: Seq<char>) -> Seq<
    (Seq<char>, DiffColor),
> {
    let lines = lines_of(text);
    Seq::new(
        lines.len(),
        |j: int|
            (
                if j == 0 {
                    first_prefix(leaf.path, leaf.color, indent) + lines[j]
                } else {
                    next_prefix(leaf.color, indent) + lines[j]
                },
                leaf.color,
            ),
    )
}

/// The display lines of the leaves, each rendered as the text at its index.
/// Leaves beyond the last text are left out.
pub open spec fn format_spec(leaves: Seq<LeafView>, texts: Seq<Seq<char>>, indent: nat) -> Seq<
    (Seq<char>, DiffColor),
>
    decreases leaves.len(),
{
    if leaves.len() == 0 || texts.len() == 0 {
        Seq::empty()
    } else {
        leaf_lines_spec(leaves[0], indent, texts[0]) + format_spec(
            leaves.drop_first(),
            texts.drop_first(),
            indent,
        )
    }
}

/// The views of display lines, line by line.
pub open spec fn lines_view(lines: Seq<(String, DiffColor)>) -> Seq<(Seq<char>, DiffColor)> {
    Seq::new(lines.len(), |i: int| (lines[i].0@, lines[i].1))
}

/// Appends `n` levels of indentation to `s`.
fn push_indent(s: &mut String, n: usize)
    ensures
        final(s)@ == old(s)@ + indent_text(n as nat),
{
    let mut i: usize = 0;
    proof {
        assert(s@ + indent_text(0) =~= s@);
    }
    while i < n
        invariant
            i <= n,
            s@ == old(s)@ + indent_text(i as nat),
        decreases n - i,
    {
        push_char(s, ' ');
        push_char(s, ' ');
        i += 1;
        proof {
            assert(old(s)@ + indent_text((i - 1) as nat) + seq![' ', ' '] =~= old(s)@
                + indent_text(i as nat));
        }
    }
}

/// The display lines of one leaf whose value is rendered as `text`.
#[verifier::rlimit(40)]
pub fn leaf_lines(leaf: &DiffLeaf, indent: usize, text: &str) -> (r: Vec<(String, DiffColor)>)
    ensures
        lines_view(r@) == leaf_lines_spec(leaf@, indent as nat, text@),
{
    let lines = split_lines(text);
    let sign = leaf.color.sign_char();
    let path = chars_of(leaf.path.as_str());
    let mut out: Vec<(String, DiffColor)> = Vec::new();
    let mut j: usize = 0;
    while j < lines.len()
        invariant
            j <= lines@.len(),
            names_view(lines@) == lines_of(text@),
            sign == leaf.color.sign(),
            path@ == leaf.path@,
            out@.len() == j,
            forall|m: int|
                0 <= m < j ==> (#[trigger] out@[m]).0@ == leaf_lines_spec(
                    leaf@,
                    indent as nat,
                    text@,
                )[m].0 && out@[m].1 == leaf.color,
        decreases lines.len() - j,
    {
        let mut s = String::new();
        push_indent(&mut s, indent);
        if j == 0 {
            push_char(&mut s, sign);
            push_char(&mut s, ' ');
            if path.len() > 0 {
                push_chars(&mut s, path.as_slice(), 0, path.len());
                push_char(&mut s, ':');
                push_char(&mut s, ' ');
                proof {
                    assert(path@.subrange(0, path@.len() as int) == path@);
                }
            }
        } else {
            push_char(&mut s, ' ');
            push_char(&mut s, ' ');
            push_char(&mut s, sign);
            push_char(&mut s, ' ');
        }
        s.append(lines[j].as_str());
        proof {
            assert(names_view(lines@)[j as int] == lines@[j as int]@);
            assert(s@ =~= leaf_lines_spec(leaf@, indent as nat, text@)[j as int].0);
        }
        out.push((s, leaf.color));
        j += 1;
    }
    proof {
        assert(lines_view(out@) =~= leaf_lines_spec(leaf@, indent as nat, text@));
    }
    out
}

/// Formats a diff for display: a flat list of coloured lines along dotted
/// paths, the fields of an object by rising key. `texts` holds the rendering of each changed value, in the order of
/// `diff_leaves`. A modification gives the lines of the old value, then
/// those of the new one; what is unchanged gives none.
pub fn format_json_diff(diff: &JsonDiff, path: &str, indent: usize, texts: &[String]) -> (r: Vec<
    (String, DiffColor),
>)
    ensures
        lines_view(r@) == format_spec(
            leaves_spec(diff@, path@),
            names_view(texts@),
            indent as nat,
        ),
{
    let leaves = diff_leaves(diff, path);
    let ghost lv = leaves_view(leaves@);
    let ghost tv = names_view(texts@);
    let mut out: Vec<(String, DiffColor)> = Vec::new();
    let mut i: usize = 0;
    proof {
        assert(lv.skip(0) == lv);
        assert(tv.skip(0) == tv);
        assert(lines_view(out@) =~= Seq::empty());
        assert(lines_view(out@) + format_spec(lv, tv, indent as nat) =~= format_spec(
            lv,
            tv,
            indent as nat,
        ));
    }
    while i < leaves.len() && i < texts.len()
        invariant
            i <= leaves@.len(),
            i <= texts@.len(),
            lv == leaves_view(leaves@),
            tv == names_view(texts@),
            format_spec(lv, tv, indent as nat) == lines_view(out@) + format_spec(
                lv.skip(i as int),
                tv.skip(i as int),
                indent as nat,
            ),
        decreases leaves.len() - i,
    {
        let ghost head = lines_view(out@);
        let ghost rest = format_spec(lv.skip(i + 1), tv.skip(i + 1), indent as nat);
        proof {
            assert(lv.skip(i as int).drop_first() == lv.skip(i + 1));
            assert(tv.skip(i as int).drop_first() == tv.skip(i + 1));
        }
        let mut lines = leaf_lines(&leaves[i], indent, texts[i].as_str());
        let ghost sub = lines_view(lines@);
        out.append(&mut lines);
        proof {
            assert(lines_view(out@) =~= head + sub);
            assert(head + (sub + rest) =~= (head + sub) + rest);
        }
        i += 1;
    }
    proof {
        assert(lines_view(out@) + Seq::<(Seq<char>, DiffColor)>::empty() =~= lines_view(out@));
    }
    out
}

} // verus!
