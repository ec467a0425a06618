//! Packet filters as the inspector takes them: the filter string grammar,
//! and filter sets in the terms of the store.

use vstd::prelude::*;
use crate::db::{DbFilterView, DbPacketFilter, DbPacketFilterSet};
use crate::text::{
    char_index, chars_of, find_char, is_space, lemma_char_absent, lemma_char_index,
    lemma_char_index_concat, lemma_trim, leading_space, lower_text, string_of, str_eq, to_ascii_lower, trim,
    trim_end, trim_start, trim_range,
};

verus! {

/// The direction that a filter asks for.
#[derive(Clone, Copy, Debug, PartialEq, Eq, Structural)]
pub enum FilterPacketDirection {
    Clientbound,
    Serverbound,
}

/// One filter: every predicate that is present must hold.
#[derive(Clone, Debug, PartialEq, Eq)]
pub struct PacketFilter {
    /// None for both directions.
    pub direction: Option<FilterPacketDirection>,
    /// None for all packet names.
    pub packet_name: Option<String>,
    /// Whether the packet name holds a `*`.
    pub packet_name_is_wildcard: bool,
}

/// A set of filters: a packet is selected when one of them matches.
#[derive(Clone, Debug, PartialEq, Eq)]
pub struct PacketFilterSet {
    pub filters: Vec<PacketFilter>,
}

/// The mathematical form of a `PacketFilter`.
pub struct FilterView {
    pub direction: Option<FilterPacketDirection>,
    pub packet_name: Option<Seq<char>>,
    pub packet_name_is_wildcard: bool,
}

impl View for PacketFilter {
    type V = FilterView;

    open spec fn view(&self) -> FilterView {
        FilterView {
            direction: self.direction,
            packet_name: match self.packet_name {
                Some(n) => Some(n@),
                None => None,
            },
            packet_name_is_wildcard: self.packet_name_is_wildcard,
        }
    }
}

/// The views of a list of filters, filter by filter.
pub open spec fn filters_view(filters: Seq<PacketFilter>) -> Seq<FilterView> {
    Seq::new(filters.len(), |i: int| filters[i]@)
}

impl View for PacketFilterSet {
    type V = Seq<FilterView>;

    open spec fn view(&self) -> Seq<FilterView> {
        filters_view(self.filters@)
    }
}

/// The direction that the part of a filter before the dot names, letters in
/// either case: `c`, `s`, or `a` or nothing for both. The outer `None` says
/// that the part names no direction.
pub open spec fn direction_of(t: Seq<char>) -> Option<Option<FilterPacketDirection>> {
    let l = lower_text(t);
    if l == "c"@ {
        Some(Some(FilterPacketDirection::Clientbound))
    } else if l == "s"@ {
        Some(Some(FilterPacketDirection::Serverbound))
    } else if l == "a"@ || l.len() == 0 {
        Some(None)
    } else {
        None
    }
}

/// The filter that one part of a filter string stands for: a direction,
/// then, after the first dot, a packet name, which is a wildcard where it
/// holds a `*`. A part whose direction is none of the known ones stands for
/// no filter.
pub open spec fn filter_of(part: Seq<char>) -> Option<FilterView> {
    match char_index(part, '.') {
        Some(dot) => match direction_of(part.take(dot)) {
            Some(direction) => {
                let name = part.skip(dot + 1);
                Some(
                    FilterView {
                        direction,
                        packet_name: Some(name),
                        packet_name_is_wildcard: char_index(name, '*') is Some,
                    },
                )
            },
            None => None,
        },
        None => match direction_of(part) {
            Some(direction) => Some(
                FilterView { direction, packet_name: None, packet_name_is_wildcard: false },
            ),
            None => None,
        },
    }
}

/// The filters of one part between commas: the filter that the part stands
/// for without the white space around it, or none where it names no
/// direction. An empty part stands for the filter that admits every packet.
pub open spec fn part_filters(part: Seq<char>) -> Seq<FilterView> {
    match filter_of(trim(part)) {
        Some(f) => seq![f],
        None => Seq::empty(),
    }
}

/// The filters of a filter string, part by part between commas.
pub open spec fn filters_of(t: Seq<char>) -> Seq<FilterView>
    decreases t.len(),
{
    match char_index(t, ',') {
        Some(i) => if 0 <= i < t.len() {
            part_filters(t.take(i)) + filters_of(t.skip(i + 1))
        } else {
            part_filters(t)
        },
        None => part_filters(t),
    }
}

/// Reads the direction before the dot of a filter.
fn parse_direction(t: &str) -> (r: Option<Option<FilterPacketDirection>>)
    ensures
        r == direction_of(t@),
{
    let l = to_ascii_lower(t);
    let empty = str_eq(l.as_str(), "");
    proof {
        reveal_strlit("");
    }
    if str_eq(l.as_str(), "c") {
        Some(Some(FilterPacketDirection::Clientbound))
    } else if str_eq(l.as_str(), "s") {
        Some(Some(FilterPacketDirection::Serverbound))
    } else if str_eq(l.as_str(), "a") || empty {
        proof {
            if empty {
                assert(l@.len() == 0);
            }
        }
        Some(None)
    } else {
        proof {
            if l@.len() == 0 {
                assert(l@ =~= ""@);
            }
        }
        None
    }
}

/// Reads the filter that `chars[from..to]` stands for.
fn parse_one(chars: &[char], from: usize, to: usize) -> (r: Option<PacketFilter>)
    requires
        from <= to <= chars@.len(),
    ensures
        match r {
            Some(f) => filter_of(chars@.subrange(from as int, to as int)) == Some(f@),
            None => filter_of(chars@.subrange(from as int, to as int)) is None,
        },
{
    let ghost part = chars@.subrange(from as int, to as int);
    match find_char(chars, from, to, '.') {
        Some(dot) => {
            let dir_text = string_of(vstd::slice::slice_subrange(chars, from, dot));
            proof {
                assert(dir_text@ == part.take(dot - from));
                assert(chars@.subrange(dot + 1, to as int) == part.skip(dot - from + 1));
            }
            match parse_direction(dir_text.as_str()) {
                Some(direction) => {
                    let name = string_of(vstd::slice::slice_subrange(chars, dot + 1, to));
                    let wildcard = find_char(chars, dot + 1, to, '*').is_some();
                    Some(
                        PacketFilter {
                            direction,
                            packet_name: Some(name),
                            packet_name_is_wildcard: wildcard,
                        },
                    )
                },
                None => None,
            }
        },
        None => {
            let dir_text = string_of(vstd::slice::slice_subrange(chars, from, to));
            match parse_direction(dir_text.as_str()) {
                Some(direction) => Some(
                    PacketFilter { direction, packet_name: None, packet_name_is_wildcard: false },
                ),
                None => None,
            }
        },
    }
}

/// Reads a filter string: filters separated by commas, each a direction
/// (`c`, `s`, `a` or nothing) and, after a dot, a packet name that may hold
/// `*`. An empty part, and so the empty string, is the filter for both
/// directions and every name. Parts that name no direction are passed over;
/// where no filter is left, there is no filter set.
#[verifier::rlimit(40)]
pub fn parse_filter(input: &str) -> (r: Option<PacketFilterSet>)
    ensures
        match r {
            Some(set) => set@ == filters_of(input@) && set@.len() > 0,
            None => filters_of(input@).len() == 0,
        },
{
    let chars = chars_of(input);
    let n = chars.len();
    let mut filters: Vec<PacketFilter> = Vec::new();
    let mut start: usize = 0;
    proof {
        assert(chars@.subrange(0, n as int) == chars@);
        assert(filters_view(filters@) =~= Seq::empty());
        assert(filters_view(filters@) + filters_of(chars@) =~= filters_of(chars@));
    }
    loop
        invariant_except_break
            start <= n,
            n == chars@.len(),
            chars@ == input@,
            filters_of(input@) == filters_view(filters@) + filters_of(
                chars@.subrange(start as int, n as int),
            ),
        ensures
            filters_view(filters@) == filters_of(input@),
        decreases n - start,
    {
        let ghost head = filters_view(filters@);
        let ghost here = chars@.subrange(start as int, n as int);
        let found = find_char(chars.as_slice(), start, n, ',');
        let end = match found {
            Some(i) => i,
            None => n,
        };
        let (a, b) = trim_range(chars.as_slice(), start, end);
        proof {
            assert(chars@.subrange(start as int, end as int) == here.take(end - start));
            if found is None {
                assert(here.take(end - start) == here);
            }
        }
        match parse_one(chars.as_slice(), a, b) {
            Some(f) => {
                filters.push(f);
                proof {
                    assert(filters_view(filters@) =~= head + part_filters(
                        here.take(end - start),
                    ));
                }
            },
            None => {
                proof {
                    assert(head + part_filters(here.take(end - start)) =~= head);
                }
            },
        }
        match found {
            Some(i) => {
                proof {
                    let rest = filters_of(here.skip(i - start + 1));
                    assert(here.skip(i - start + 1) == chars@.subrange(i + 1, n as int));
                    assert(head + (part_filters(here.take(i - start)) + rest) =~= (head
                        + part_filters(here.take(i - start))) + rest);
                }
                start = i + 1;
            },
            None => {
                break ;
            },
        }
    }
    if filters.len() == 0 {
        None
    } else {
        Some(PacketFilterSet { filters })
    }
}

/// The text of one filter: `c`, `s` or `a` for the direction, then a dot
/// and the packet name where there is one.
pub open spec fn filter_text(f: FilterView) -> Seq<char> {
    let dir = match f.direction {
        Some(FilterPacketDirection::Clientbound) => "c"@,
        Some(FilterPacketDirection::Serverbound) => "s"@,
        None => "a"@,
    };
    match f.packet_name {
        Some(name) => dir + "."@ + name,
        None => dir,
    }
}

/// The texts of the filters, with commas between them.
pub open spec fn filters_text(filters: Seq<FilterView>) -> Seq<char>
    decreases filters.len(),
{
    if filters.len() == 0 {
        Seq::empty()
    } else if filters.len() == 1 {
        filter_text(filters[0])
    } else {
        filter_text(filters[0]) + ","@ + filters_text(filters.drop_first())
    }
}

/// The filter of the store that a filter stands for.
pub open spec fn db_filter_of(f: FilterView) -> DbFilterView {
    DbFilterView {
        direction: match f.direction {
            Some(FilterPacketDirection::Clientbound) => Some("clientbound"@),
            Some(FilterPacketDirection::Serverbound) => Some("serverbound"@),
            None => None,
        },
        packet_name: f.packet_name,
        packet_name_is_wildcard: f.packet_name_is_wildcard,
    }
}

impl PacketFilterSet {
    /// The filter set in the terms of the store: each filter with its
    /// direction by name, in the same order.
    pub fn to_db_filter_set(&self) -> (r: DbPacketFilterSet)
        ensures
            r@.len() == self@.len(),
            forall|i: int| 0 <= i < self@.len() ==> r@[i] == db_filter_of(self@[i]),
    {
        let mut out: Vec<DbPacketFilter> = Vec::new();
        let mut i: usize = 0;
        while i < self.filters.len()
            invariant
                i <= self.filters@.len(),
                out@.len() == i,
                forall|j: int| 0 <= j < i ==> (#[trigger] out@[j])@ == db_filter_of(self@[j]),
            decreases self.filters.len() - i,
        {
            let f = &self.filters[i];
            let direction = match f.direction {
                Some(FilterPacketDirection::Clientbound) => Some(String::from_str("clientbound")),
                Some(FilterPacketDirection::Serverbound) => Some(String::from_str("serverbound")),
                None => None,
            };
            let packet_name = match &f.packet_name {
                Some(n) => Some(n.clone()),
                None => None,
            };
            out.push(
                DbPacketFilter {
                    direction,
                    packet_name,
                    packet_name_is_wildcard: f.packet_name_is_wildcard,
                },
            );
            i += 1;
        }
        DbPacketFilterSet { filters: out }
    }

    /// The filter set as a filter string.
    pub fn to_string(&self) -> (r: String)
        ensures
            r@ == filters_text(self@),
    {
        let ghost all = self@;
        let mut s = String::new();
        let mut i: usize = 0;
        proof {
            assert(all.skip(0) == all);
            assert(s@ + filters_text(all) =~= filters_text(all));
        }
        while i < self.filters.len()
            invariant
                i <= self.filters@.len(),
                all == self@,
                filters_text(all) == s@ + filters_text(all.skip(i as int)),
            decreases self.filters.len() - i,
        {
            let ghost head = s@;
            let ghost here = all.skip(i as int);
            let f = &self.filters[i];
            proof {
                assert(here.drop_first() == all.skip(i + 1));
                assert(here[0] == f@);
            }
            match f.direction {
                Some(FilterPacketDirection::Clientbound) => s.append("c"),
                Some(FilterPacketDirection::Serverbound) => s.append("s"),
                None => s.append("a"),
            }
            match &f.packet_name {
                Some(name) => {
                    s.append(".");
                    s.append(name.as_str());
                },
                None => {},
            }
            proof {
                assert(s@ =~= head + filter_text(f@));
            }
            if i + 1 < self.filters.len() {
                s.append(",");
                proof {
                    let rest = filters_text(all.skip(i + 1));
                    assert(head + (filter_text(f@) + ","@ + rest) =~= s@ + rest);
                }
            } else {
                proof {
                    assert(all.skip(i + 1).len() == 0);
                    assert(head + filter_text(f@) =~= s@ + filters_text(all.skip(i + 1)));
                }
            }
            i += 1;
        }
        proof {
            assert(s@ + Seq::<char>::empty() =~= s@);
        }
        s
    }
}

/// Whether a filter can be written down and read again: its packet name
/// holds no comma and ends with no white space, and the filter is marked as
/// a wildcard just where its name holds a `*`.
pub open spec fn writable(f: FilterView) -> bool {
    match f.packet_name {
        Some(name) => {
            &&& char_index(name, ',') is None
            &&& name.len() > 0 ==> !is_space(name.last())
            &&& f.packet_name_is_wildcard == (char_index(name, '*') is Some)
        },
        None => !f.packet_name_is_wildcard,
    }
}

/// The letter that stands for a direction in a filter string.
pub open spec fn direction_letter(d: Option<FilterPacketDirection>) -> char {
    match d {
        Some(FilterPacketDirection::Clientbound) => 'c',
        Some(FilterPacketDirection::Serverbound) => 's',
        None => 'a',
    }
}

proof fn lemma_filter_text(f: FilterView)
    ensures
        filter_text(f) == match f.packet_name {
            Some(name) => seq![direction_letter(f.direction), '.'] + name,
            None => seq![direction_letter(f.direction)],
        },
{
    reveal_strlit("c");
    reveal_strlit("s");
    reveal_strlit("a");
    reveal_strlit(".");
    assert("c"@ =~= seq!['c']);
    assert("s"@ =~= seq!['s']);
    assert("a"@ =~= seq!['a']);
    assert("."@ =~= seq!['.']);
    match f.packet_name {
        Some(name) => {
            assert(seq![direction_letter(f.direction)] + seq!['.'] + name =~= seq![
                direction_letter(f.direction),
                '.',
            ] + name);
        },
        None => {},
    }
}

proof fn lemma_direction_letter(d: Option<FilterPacketDirection>)
    ensures
        direction_of(seq![direction_letter(d)]) == Some(d),
{
    reveal_strlit("c");
    reveal_strlit("s");
    reveal_strlit("a");
    let t = seq![direction_letter(d)];
    assert(lower_text(t) =~= t);
    assert("c"@ =~= seq!['c']);
    assert("s"@ =~= seq!['s']);
    assert("a"@ =~= seq!['a']);
    assert(t[0] == direction_letter(d));
    assert("c"@[0] == 'c');
    assert("s"@[0] == 's');
    assert("a"@[0] == 'a');
}

/// A filter that can be written down is read again from its text.
proof fn lemma_part_round_trip(f: FilterView)
    requires
        writable(f),
    ensures
        part_filters(filter_text(f)) == seq![f],
        char_index(filter_text(f), ',') is None,
        filter_text(f).len() > 0,
{
    lemma_filter_text(f);
    lemma_direction_letter(f.direction);
    let letter = direction_letter(f.direction);
    let text = filter_text(f);
    assert(!is_space(letter));
    assert(text[0] == letter);
    match f.packet_name {
        Some(name) => {
            assert(text.last() == if name.len() > 0 {
                name.last()
            } else {
                '.'
            });
            assert(trim_start(text) == text);
            assert(trim_end(text) == text);
            assert(trim(text) == text);
            assert(char_index(seq![letter], '.') is None) by {
                assert(seq![letter][0] == letter);
                assert(char_index(seq![letter].drop_first(), '.') is None);
            }
            lemma_char_index_concat(seq![letter], '.', name);
            assert(seq![letter] + seq!['.'] + name =~= text);
            assert(text.take(1) =~= seq![letter]);
            assert(text.skip(2) =~= name);
            assert(char_index(seq![letter, '.'], ',') is None) by {
                let two = seq![letter, '.'];
                assert(two[0] == letter);
                assert(two.drop_first()[0] == '.');
                assert(char_index(two.drop_first().drop_first(), ',') is None);
                assert(char_index(two.drop_first(), ',') is None);
            }
            lemma_char_index_concat(seq![letter, '.'], ',', name);
        },
        None => {
            assert(text =~= seq![letter]);
            assert(trim_start(text) == text);
            assert(trim_end(text) == text);
            assert(char_index(text.drop_first(), '.') is None);
            assert(char_index(text.drop_first(), ',') is None);
            assert(char_index(text, '.') is None);
            assert(char_index(text, ',') is None);
        },
    }
}

/// Writing a filter set down and reading it again yields the same set:
/// where each filter of a set that is not empty can be written down, the
/// filter string of the set is read as the set.
pub proof fn lemma_filter_round_trip(filters: Seq<FilterView>)
    requires
        filters.len() > 0,
        forall|i: int| 0 <= i < filters.len() ==> writable(#[trigger] filters[i]),
    ensures
        filters_of(filters_text(filters)) == filters,
    decreases filters.len(),
{
    reveal_strlit(",");
    assert(","@ =~= seq![',']);
    let first = filter_text(filters[0]);
    lemma_part_round_trip(filters[0]);
    if filters.len() == 1 {
        assert(filters =~= seq![filters[0]]);
    } else {
        let rest = filters.drop_first();
        assert forall|i: int| 0 <= i < rest.len() implies writable(#[trigger] rest[i]) by {
            assert(rest[i] == filters[i + 1]);
        }
        lemma_filter_round_trip(rest);
        let tail = filters_text(rest);
        let text = filters_text(filters);
        lemma_char_index_concat(first, ',', tail);
        assert(text =~= first + seq![','] + tail);
        assert(text.take(first.len() as int) =~= first);
        assert(text.skip(first.len() as int + 1) =~= tail);
        assert(seq![filters[0]] + rest =~= filters);
    }
}

/// The filter of a part in which no comma stands can be written down.
proof fn lemma_part_writable(part: Seq<char>)
    requires
        forall|j: int| 0 <= j < part.len() ==> part[j] != ',',
    ensures
        forall|i: int|
            0 <= i < part_filters(part).len() ==> writable(#[trigger] part_filters(part)[i]),
{
    let q = trim(part);
    lemma_trim(part);
    let a = leading_space(part);
    match filter_of(q) {
        Some(f) => {
            match char_index(q, '.') {
                Some(dot) => {
                    lemma_char_index(q, '.');
                    let name = q.skip(dot + 1);
                    assert(f.packet_name == Some(name));
                    assert forall|j: int| 0 <= j < name.len() implies name[j] != ',' by {
                        assert(name[j] == part[a + dot + 1 + j]);
                    }
                    lemma_char_absent(name, ',');
                    if name.len() > 0 {
                        assert(name.last() == q.last());
                    }
                },
                None => {},
            }
            assert(part_filters(part) =~= seq![f]);
        },
        None => {},
    }
}

/// Every filter that is read from a filter string can be written down.
pub proof fn lemma_parsed_writable(t: Seq<char>)
    ensures
        forall|i: int| 0 <= i < filters_of(t).len() ==> writable(#[trigger] filters_of(t)[i]),
    decreases t.len(),
{
    lemma_char_index(t, ',');
    match char_index(t, ',') {
        Some(c) => {
            let part = t.take(c);
            let rest = t.skip(c + 1);
            lemma_part_writable(part);
            lemma_parsed_writable(rest);
            let head = part_filters(part);
            assert forall|i: int| 0 <= i < filters_of(t).len() implies writable(
                #[trigger] filters_of(t)[i],
            ) by {
                if i < head.len() {
                    assert(filters_of(t)[i] == head[i]);
                } else {
                    assert(filters_of(t)[i] == filters_of(rest)[i - head.len()]);
                }
            }
        },
        None => {
            lemma_part_writable(t);
        },
    }
}

/// Reading a filter string, writing the filters down and reading them
/// again yields the same filters: what is read from any string that holds
/// a filter is a set that its own filter string stands for.
pub proof fn lemma_parse_write_parse(t: Seq<char>)
    requires
        filters_of(t).len() > 0,
    ensures
        filters_of(filters_text(filters_of(t))) == filters_of(t),
{
    lemma_parsed_writable(t);
    lemma_filter_round_trip(filters_of(t));
}

} // verus!
