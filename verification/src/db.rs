//! The store interface as plain values: sessions, packet records, packet
//! filters, and the query that selects the packets of a session.

use vstd::prelude::*;
use crate::text::{chars_of, names_view, push_char, push_decimal, decimal_text, string_of};
use crate::value::{Value, ValueView};

verus! {

/// A capture session in the store. Times are milliseconds since the epoch.
#[derive(Clone, Copy, Debug, PartialEq, Eq, Structural)]
pub struct Session {
    pub id: i32,
    pub started_at: i64,
    pub ended_at: Option<i64>,
}

/// A packet record in the store.
#[derive(Debug, PartialEq)]
pub struct DbPacket {
    pub id: i32,
    pub session_id: i32,
    /// Milliseconds since the epoch.
    pub ts: i64,
    pub session_time_ms: i64,
    pub packet_number: i64,
    pub server_version: String,
    pub direction: String,
    pub packet: Value,
}

/// The mathematical form of a `DbPacket`.
pub struct DbPacketView {
    pub id: i32,
    pub session_id: i32,
    pub ts: i64,
    pub session_time_ms: i64,
    pub packet_number: i64,
    pub server_version: Seq<char>,
    pub direction: Seq<char>,
    pub packet: ValueView,
}

impl View for DbPacket {
    type V = DbPacketView;

    open spec fn view(&self) -> DbPacketView {
        DbPacketView {
            id: self.id,
            session_id: self.session_id,
            ts: self.ts,
            session_time_ms: self.session_time_ms,
            packet_number: self.packet_number,
            server_version: self.server_version@,
            direction: self.direction@,
            packet: self.packet@,
        }
    }
}

/// One filter of the store: every predicate that is present must hold.
#[derive(Clone, Debug, PartialEq, Eq)]
pub struct DbPacketFilter {
    /// `clientbound` or `serverbound`; none for both.
    pub direction: Option<String>,
    /// The packet name to match; none for all.
    pub packet_name: Option<String>,
    /// Whether `*` in the packet name stands for any run of characters.
    pub packet_name_is_wildcard: bool,
}

/// A set of filters: a packet is selected when one of them matches. The
/// empty set selects every packet.
#[derive(Clone, Debug, PartialEq, Eq)]
pub struct DbPacketFilterSet {
    pub filters: Vec<DbPacketFilter>,
}

/// The mathematical form of a `DbPacketFilter`.
pub struct DbFilterView {
    pub direction: Option<Seq<char>>,
    pub packet_name: Option<Seq<char>>,
    pub packet_name_is_wildcard: bool,
}

impl View for DbPacketFilter {
    type V = DbFilterView;

    open spec fn view(&self) -> DbFilterView {
        DbFilterView {
            direction: match self.direction {
                Some(d) => Some(d@),
                None => None,
            },
            packet_name: match self.packet_name {
                Some(n) => Some(n@),
                None => None,
            },
            packet_name_is_wildcard: self.packet_name_is_wildcard,
        }
    }
}

/// The views of a list of filters, filter by filter.
pub open spec fn db_filters_view(filters: Seq<DbPacketFilter>) -> Seq<DbFilterView> {
    Seq::new(filters.len(), |i: int| filters[i]@)
}

impl View for DbPacketFilterSet {
    type V = Seq<DbFilterView>;

    open spec fn view(&self) -> Seq<DbFilterView> {
        db_filters_view(self.filters@)
    }
}

/// A packet name as a pattern of the store: `*` becomes `%`.
pub open spec fn like_pattern(name: Seq<char>) -> Seq<char> {
    Seq::new(
        name.len(),
        |i: int|
            if name[i] == '*' {
                '%'
            } else {
                name[i]
            },
    )
}

/// A packet name as a pattern of the store: `*` becomes `%`.
pub fn to_like_pattern(name: &str) -> (r: String)
    ensures
        r@ == like_pattern(name@),
{
    let chars = chars_of(name);
    let mut out: Vec<char> = Vec::new();
    let mut i: usize = 0;
    while i < chars.len()
        invariant
            i <= chars@.len(),
            out@ == like_pattern(chars@.take(i as int)),
        decreases chars.len() - i,
    {
        let c = if chars[i] == '*' {
            '%'
        } else {
            chars[i]
        };
        out.push(c);
        i += 1;
        proof {
            assert(like_pattern(chars@.take(i as int)) =~= like_pattern(chars@.take(i - 1)).push(
                c,
            ));
        }
    }
    proof {
        assert(chars@.take(chars@.len() as int) == chars@);
    }
    string_of(out.as_slice())
}

/// A query with its parameters. Parameter `$1` is the session id; the texts
/// in `params` are the parameters from `$2` on.
#[derive(Debug, PartialEq)]
pub struct PacketQuery {
    pub sql: String,
    pub params: Vec<String>,
}

/// The mathematical form of a `PacketQuery`.
pub struct QueryView {
    pub sql: Seq<char>,
    pub params: Seq<Seq<char>>,
}

impl View for PacketQuery {
    type V = QueryView;

    open spec fn view(&self) -> QueryView {
        QueryView { sql: self.sql@, params: names_view(self.params@) }
    }
}

/// The placeholder of the parameter with the given number.
pub open spec fn placeholder(n: nat) -> Seq<char> {
    seq!['$'] + decimal_text(n)
}

/// The condition of one filter and its parameters, where `used` parameters
/// are taken already: the predicates that are present, joined by `AND`; a
/// filter without predicates holds of every packet.
pub open spec fn filter_condition(f: DbFilterView, used: nat) -> QueryView {
    let dir = match f.direction {
        Some(d) => QueryView { sql: "direction = "@ + placeholder(used + 1), params: seq![d] },
        None => QueryView { sql: Seq::empty(), params: Seq::empty() },
    };
    let n = used + dir.params.len();
    let name = match f.packet_name {
        Some(p) => if f.packet_name_is_wildcard {
            QueryView {
                sql: "packet->>'name' ILIKE "@ + placeholder(n + 1),
                params: seq![like_pattern(p)],
            }
        } else {
            QueryView { sql: "packet->>'name' = "@ + placeholder(n + 1), params: seq![p] }
        },
        None => QueryView { sql: Seq::empty(), params: Seq::empty() },
    };
    let sql = if f.direction is Some && f.packet_name is Some {
        "("@ + dir.sql + " AND "@ + name.sql + ")"@
    } else if f.direction is Some {
        "("@ + dir.sql + ")"@
    } else if f.packet_name is Some {
        "("@ + name.sql + ")"@
    } else {
        "1=1"@
    };
    QueryView { sql, params: dir.params + name.params }
}

/// The conditions of the filters, joined by `OR`, with their parameters.
pub open spec fn filter_conditions(filters: Seq<DbFilterView>, used: nat) -> QueryView
    decreases filters.len(),
{
    if filters.len() == 0 {
        QueryView { sql: Seq::empty(), params: Seq::empty() }
    } else {
        let first = filter_condition(filters[0], used);
        let rest = filter_conditions(filters.drop_first(), used + first.params.len());
        QueryView {
            sql: if filters.len() == 1 {
                first.sql
            } else {
                first.sql + " OR "@ + rest.sql
            },
            params: first.params + rest.params,
        }
    }
}

/// The query for the packets of a session that one of the filters
/// matches, in the order of their packet numbers.
pub open spec fn packet_query_spec(filters: Seq<DbFilterView>) -> QueryView {
    let head =
        "SELECT id, session_id, ts, session_time_ms, packet_number, server_version, direction, packet FROM packets WHERE session_id = $1"@;
    let tail = " ORDER BY packet_number ASC"@;
    if filters.len() == 0 {
        QueryView { sql: head + tail, params: Seq::empty() }
    } else {
        let c = filter_conditions(filters, 1);
        QueryView { sql: head + " AND ("@ + c.sql + ")"@ + tail, params: c.params }
    }
}

/// Appends the condition of one filter to `sql` and its parameters to `params`.
#[verifier::rlimit(40)]
fn push_condition(sql: &mut String, params: &mut Vec<String>, f: &DbPacketFilter)
    requires
        old(params)@.len() + 3 <= u64::MAX,
    ensures
        final(sql)@ == old(sql)@ + filter_condition(f@, 1 + old(params)@.len()).sql,
        names_view(final(params)@) == names_view(old(params)@) + filter_condition(
            f@,
            1 + old(params)@.len(),
        ).params,
{
    let ghost p0 = names_view(params@);
    let ghost s0 = sql@;
    let ghost used = (1 + params@.len()) as nat;
    let ghost c = filter_condition(f@, used);
    match (&f.direction, &f.packet_name) {
        (None, None) => {
            sql.append("1=1");
            proof {
                assert(names_view(params@) =~= p0 + c.params);
            }
        },
        _ => {
            sql.append("(");
            match &f.direction {
                Some(d) => {
                    sql.append("direction = ");
                    push_char(sql, '$');
                    push_decimal(sql, params.len() as u64 + 2);
                    params.push(d.clone());
                    match &f.packet_name {
                        Some(_) => {
                            sql.append(" AND ");
                        },
                        None => {},
                    }
                },
                None => {},
            }
            match &f.packet_name {
                Some(name) => {
                    if f.packet_name_is_wildcard {
                        sql.append("packet->>'name' ILIKE ");
                        push_char(sql, '$');
                        push_decimal(sql, params.len() as u64 + 2);
                        params.push(to_like_pattern(name.as_str()));
                    } else {
                        sql.append("packet->>'name' = ");
                        push_char(sql, '$');
                        push_decimal(sql, params.len() as u64 + 2);
                        params.push(name.clone());
                    }
                },
                None => {},
            }
            sql.append(")");
            proof {
                assert(sql@ =~= s0 + c.sql);
                assert(names_view(params@) =~= p0 + c.params);
            }
        },
    }
}

/// Builds the query for the packets of a session that one of the filters
/// matches. No filter set, or an empty one, selects every packet.
#[verifier::rlimit(40)]
pub fn packet_query(filter_set: Option<&DbPacketFilterSet>) -> (r: PacketQuery)
    requires
        filter_set matches Some(set) ==> 2 * set.filters@.len() + 4 <= u64::MAX,
    ensures
        r@ == packet_query_spec(
            match filter_set {
                Some(set) => set@,
                None => Seq::empty(),
            },
        ),
{
    let mut sql = String::from_str(
        "SELECT id, session_id, ts, session_time_ms, packet_number, server_version, direction, packet FROM packets WHERE session_id = $1",
    );
    let mut params: Vec<String> = Vec::new();
    proof {
        assert(names_view(params@) =~= Seq::empty());
    }
    match filter_set {
        Some(set) => {
            if set.filters.len() > 0 {
                let ghost fs = set@;
                let ghost head = sql@ + " AND ("@;
                sql.append(" AND (");
                let mut i: usize = 0;
                proof {
                    assert(fs.skip(0) == fs);
                    let c = filter_conditions(fs, 1);
                    assert(head + c.sql =~= sql@ + c.sql);
                    assert(c.params =~= names_view(params@) + c.params);
                }
                while i < set.filters.len()
                    invariant
                        i <= set.filters@.len(),
                        fs == set@,
                        2 * set.filters@.len() + 4 <= u64::MAX,
                        params@.len() <= 2 * i,
                        head + filter_conditions(fs, 1).sql == sql@ + (if 0 < i < fs.len() {
                            " OR "@
                        } else {
                            Seq::empty()
                        }) + filter_conditions(fs.skip(i as int), 1 + params@.len()).sql,
                        filter_conditions(fs, 1).params == names_view(params@) + filter_conditions(
                            fs.skip(i as int),
                            1 + params@.len(),
                        ).params,
                    decreases set.filters.len() - i,
                {
                    let ghost s_before = sql@;
                    let ghost p_before = names_view(params@);
                    let ghost used = (1 + params@.len()) as nat;
                    let ghost first = filter_condition(fs[i as int], used);
                    let ghost rest = filter_conditions(
                        fs.skip(i + 1),
                        used + first.params.len(),
                    );
                    proof {
                        assert(fs.skip(i as int).drop_first() == fs.skip(i + 1));
                        assert(fs.skip(i as int)[0] == set.filters@[i as int]@);
                    }
                    if i > 0 {
                        sql.append(" OR ");
                    }
                    push_condition(&mut sql, &mut params, &set.filters[i]);
                    proof {
                        assert(p_before + (first.params + rest.params) =~= (p_before
                            + first.params) + rest.params);
                        let sep = if 0 < i < fs.len() {
                            " OR "@
                        } else {
                            Seq::empty()
                        };
                        let next_sep = if 0 < i + 1 < fs.len() {
                            " OR "@
                        } else {
                            Seq::empty()
                        };
                        if fs.skip(i as int).len() == 1 {
                            assert(fs.skip(i + 1).len() == 0);
                            assert(s_before + sep + first.sql =~= sql@ + next_sep + rest.sql);
                        } else {
                            assert(s_before + sep + (first.sql + " OR "@ + rest.sql) =~= sql@
                                + next_sep + rest.sql);
                        }
                    }
                    i += 1;
                }
                proof {
                    assert(fs.skip(i as int).len() == 0);
                    assert(head + filter_conditions(fs, 1).sql =~= sql@);
                    assert(filter_conditions(fs, 1).params =~= names_view(params@));
                }
                sql.append(")");
            }
        },
        None => {},
    }
    sql.append(" ORDER BY packet_number ASC");
    PacketQuery { sql, params }
}

} // verus!
