//! The decisions of the datagram relay: which session a datagram belongs
//! to, where it is forwarded, and what is logged. The relay itself, which
//! owns the socket, performs what is decided here.

use vstd::prelude::*;
use crate::packet_logger::{
    log_step, logger_after, EntryView, LogError, LoggedPacket, LoggerView, PacketDirection,
};
use crate::session::{is_random_id, Endpoint, Session, SessionView};

verus! {

/// The relay's table of sessions, in the order in which clients arrived.
#[derive(Debug, PartialEq)]
pub struct ProxyServer {
    listen_addr: Endpoint,
    upstream_addr: Endpoint,
    sessions: Vec<Session>,
}

/// The mathematical form of a `ProxyServer`.
pub struct ProxyView {
    pub listen_addr: Endpoint,
    pub upstream_addr: Endpoint,
    pub sessions: Seq<SessionView>,
}

impl View for ProxyServer {
    type V = ProxyView;

    closed spec fn view(&self) -> ProxyView {
        ProxyView {
            listen_addr: self.listen_addr,
            upstream_addr: self.upstream_addr,
            sessions: Seq::new(self.sessions@.len(), |i: int| self.sessions@[i]@),
        }
    }
}

/// The index of the first session of the client at `addr`.
pub open spec fn session_index(sessions: Seq<SessionView>, addr: Endpoint) -> Option<int>
    decreases sessions.len(),
{
    if sessions.len() == 0 {
        None
    } else if sessions[0].client_addr == addr {
        Some(0)
    } else {
        match session_index(sessions.drop_first(), addr) {
            Some(i) => Some(i + 1),
            None => None,
        }
    }
}

/// The session that `session_index` finds is a session of that client.
pub proof fn lemma_session_index(sessions: Seq<SessionView>, addr: Endpoint)
    ensures
        session_index(sessions, addr) matches Some(i) ==> 0 <= i < sessions.len()
            && sessions[i].client_addr == addr,
    decreases sessions.len(),
{
    if sessions.len() > 0 && sessions[0].client_addr != addr {
        lemma_session_index(sessions.drop_first(), addr);
    }
}

/// Where a datagram goes.
#[derive(Clone, Copy, Debug, PartialEq, Eq, Structural)]
pub enum Route {
    /// From a client to the upstream server, for the session at this index,
    /// which was created for this datagram or existed before.
    ToUpstream { session: usize, created: bool },
    /// From the upstream server to the client of the session at this index:
    /// the first session. The choice is ambiguous where more sessions exist.
    ToClient { session: usize, ambiguous: bool },
    /// From the upstream server while no session exists: nowhere.
    NoSession,
}

/// Where a datagram from `from` goes. A datagram is from a client unless it
/// comes from the upstream address and no session has that address as its
/// client; a datagram from a client without a session gets one.
pub open spec fn route_spec(proxy: ProxyView, from: Endpoint) -> Route {
    match session_index(proxy.sessions, from) {
        Some(i) => Route::ToUpstream { session: i as usize, created: false },
        None => if from != proxy.upstream_addr {
            Route::ToUpstream { session: proxy.sessions.len() as usize, created: true }
        } else if proxy.sessions.len() == 0 {
            Route::NoSession
        } else {
            Route::ToClient { session: 0, ambiguous: proxy.sessions.len() > 1 }
        },
    }
}

/// What the relay is to do with a datagram.
#[derive(Debug, PartialEq)]
pub enum ProxyAction {
    /// Send the datagram to `to`, and append the frame of `logged` to the log
    /// of the session, or report why nothing was logged. The datagram is
    /// sent in either case.
    Forward {
        to: Endpoint,
        direction: PacketDirection,
        session_id: u128,
        new_session: bool,
        ambiguous: bool,
        logged: Result<LoggedPacket, LogError>,
    },
    /// Drop the datagram: it came from upstream while no session exists.
    Drop,
}

impl ProxyServer {
    /// A relay without sessions.
    pub fn new(listen_addr: Endpoint, upstream_addr: Endpoint) -> (r: Self)
        ensures
            r@ == (ProxyView { listen_addr, upstream_addr, sessions: Seq::empty() }),
    {
        let r = ProxyServer { listen_addr, upstream_addr, sessions: Vec::new() };
        proof {
            assert(r@.sessions =~= Seq::empty());
        }
        r
    }

    /// The address that the relay listens on.
    pub fn listen_addr(&self) -> (r: Endpoint)
        ensures
            r == self@.listen_addr,
    {
        self.listen_addr
    }

    /// The address of the upstream server.
    pub fn upstream_addr(&self) -> (r: Endpoint)
        ensures
            r == self@.upstream_addr,
    {
        self.upstream_addr
    }

    /// The number of sessions.
    pub fn session_count(&self) -> (n: usize)
        ensures
            n == self@.sessions.len(),
    {
        self.sessions.len()
    }

    /// The session at `index`, in order of arrival.
    pub fn session(&self, index: usize) -> (r: Option<&Session>)
        ensures
            match r {
                Some(s) => index < self@.sessions.len() && s@ == self@.sessions[index as int],
                None => index >= self@.sessions.len(),
            },
    {
        if index < self.sessions.len() {
            Some(&self.sessions[index])
        } else {
            None
        }
    }

    /// The index of the first session of the client at `addr`.
    pub fn find_session(&self, addr: Endpoint) -> (r: Option<usize>)
        ensures
            match r {
                Some(i) => i < self@.sessions.len() && session_index(self@.sessions, addr)
                    == Some(i as int),
                None => session_index(self@.sessions, addr) is None,
            },
    {
        let ghost all = self@.sessions;
        let mut i: usize = 0;
        proof {
            assert(all.skip(0) == all);
        }
        while i < self.sessions.len()
            invariant
                i <= self.sessions@.len(),
                all == self@.sessions,
                session_index(all, addr) == crate::text::moved(
                    session_index(all.skip(i as int), addr),
                    i as int,
                ),
            decreases self.sessions.len() - i,
        {
            proof {
                assert(all.skip(i as int).drop_first() == all.skip(i + 1));
                assert(all.skip(i as int)[0] == self.sessions@[i as int]@);
            }
            if self.sessions[i].client_addr() == addr {
                return Some(i);
            }
            i += 1;
        }
        None
    }

    /// Decides where a datagram from `from` goes, and creates the session of
    /// a client that has none.
    #[verifier::rlimit(40)]
    pub fn route(&mut self, from: Endpoint) -> (r: Route)
        ensures
            r == route_spec(old(self)@, from),
            final(self)@.listen_addr == old(self)@.listen_addr,
            final(self)@.upstream_addr == old(self)@.upstream_addr,
            match r {
                Route::ToUpstream { session, created: true } => {
                    &&& final(self)@.sessions.len() == old(self)@.sessions.len() + 1
                    &&& final(self)@.sessions.take(session as int) == old(self)@.sessions
                    &&& session == old(self)@.sessions.len()
                    &&& is_random_id(final(self)@.sessions[session as int].id)
                    &&& final(self)@.sessions[session as int].client_addr == from
                    &&& final(self)@.sessions[session as int].upstream_addr
                        == old(self)@.upstream_addr
                    &&& final(self)@.sessions[session as int].logger == (LoggerView {
                        session_id: final(self)@.sessions[session as int].id,
                        protocol_version: "1.21.111"@,
                        count: 0,
                    })
                },
                _ => final(self)@ == old(self)@,
            },
            match r {
                Route::ToUpstream { session, .. } => session < final(self)@.sessions.len(),
                Route::ToClient { session, .. } => session < final(self)@.sessions.len(),
                Route::NoSession => true,
            },
    {
        match self.find_session(from) {
            Some(i) => Route::ToUpstream { session: i, created: false },
            None => {
                if from != self.upstream_addr {
                    let ghost before = self@.sessions;
                    let index = self.sessions.len();
                    let s = Session::new(from, self.upstream_addr);
                    self.sessions.push(s);
                    proof {
                        assert(self@.sessions.take(index as int) =~= before);
                    }
                    Route::ToUpstream { session: index, created: true }
                } else if self.sessions.len() == 0 {
                    Route::NoSession
                } else {
                    Route::ToClient { session: 0, ambiguous: self.sessions.len() > 1 }
                }
            },
        }
    }

    /// Handles one datagram that arrived from `from` at `timestamp`: decides
    /// its route, logs it in its session, and says where to send it.
    /// Logging may fail; the datagram is forwarded all the same.
    #[verifier::rlimit(40)]
    pub fn handle_datagram(&mut self, from: Endpoint, data: &[u8], timestamp: i64) -> (r:
        ProxyAction)
        ensures
            final(self)@.listen_addr == old(self)@.listen_addr,
            final(self)@.upstream_addr == old(self)@.upstream_addr,
            match route_spec(old(self)@, from) {
                Route::NoSession => r == ProxyAction::Drop && final(self)@ == old(self)@,
                Route::ToUpstream { session, created } => {
                    &&& r matches ProxyAction::Forward {
                        to,
                        direction,
                        session_id,
                        new_session,
                        ambiguous,
                        logged,
                    }
                    &&& to == old(self)@.upstream_addr
                    &&& direction == PacketDirection::Serverbound
                    &&& new_session == created
                    &&& !ambiguous
                    &&& session < final(self)@.sessions.len()
                    &&& session_id == final(self)@.sessions[session as int].id
                    &&& final(self)@.sessions[session as int].client_addr == from
                    &&& final(self)@.sessions.len() == old(self)@.sessions.len() + if created {
                        1int
                    } else {
                        0int
                    }
                    &&& forall|j: int|
                        0 <= j < old(self)@.sessions.len() && j != session ==> final(self)@.sessions[j] == old(self)@.sessions[j]
                    &&& logged_in(
                        if created {
                            LoggerView {
                                session_id,
                                protocol_version: "1.21.111"@,
                                count: 0,
                            }
                        } else {
                            old(self)@.sessions[session as int].logger
                        },
                        final(self)@.sessions[session as int].logger,
                        direction,
                        data@,
                        timestamp,
                        logged,
                    )
                },
                Route::ToClient { session, ambiguous: unsure } => {
                    &&& r matches ProxyAction::Forward {
                        to,
                        direction,
                        session_id,
                        new_session,
                        ambiguous,
                        logged,
                    }
                    &&& to == old(self)@.sessions[0].client_addr
                    &&& direction == PacketDirection::Clientbound
                    &&& !new_session
                    &&& ambiguous == unsure
                    &&& session_id == old(self)@.sessions[0].id
                    &&& final(self)@.sessions.len() == old(self)@.sessions.len()
                    &&& forall|j: int|
                        0 < j < old(self)@.sessions.len() ==> final(self)@.sessions[j] == old(self)@.sessions[j]
                    &&& final(self)@.sessions[0] == (SessionView {
                        logger: final(self)@.sessions[0].logger,
                        ..old(self)@.sessions[0]
                    })
                    &&& logged_in(
                        old(self)@.sessions[0].logger,
                        final(self)@.sessions[0].logger,
                        direction,
                        data@,
                        timestamp,
                        logged,
                    )
                },
            },
    {
        let count = self.sessions.len();
        proof {
            lemma_session_index(self@.sessions, from);
            assert(self@.sessions.len() == count);
        }
        let route = self.route(from);
        let ghost mid = self@;
        match route {
            Route::NoSession => ProxyAction::Drop,
            Route::ToUpstream { session, created } => {
                let to = self.upstream_addr;
                let payload = vstd::slice::slice_to_vec(data);
                let logged = self.sessions[session].log_serverbound(payload, timestamp);
                let session_id = self.sessions[session].id();
                proof {
                    assert(forall|j: int|
                        0 <= j < mid.sessions.len() && j != session ==> self@.sessions[j]
                            == mid.sessions[j]);
                    if created {
                        assert forall|j: int|
                            0 <= j < old(self)@.sessions.len() implies mid.sessions[j] == old(self)@.sessions[j] by {
                            assert(mid.sessions.take(session as int)[j] == mid.sessions[j]);
                        }
                    }
                }
                ProxyAction::Forward {
                    to,
                    direction: PacketDirection::Serverbound,
                    session_id,
                    new_session: created,
                    ambiguous: false,
                    logged,
                }
            },
            Route::ToClient { session, ambiguous } => {
                let to = self.sessions[session].client_addr();
                let payload = vstd::slice::slice_to_vec(data);
                let logged = self.sessions[session].log_clientbound(payload, timestamp);
                let session_id = self.sessions[session].id();
                proof {
                    assert(forall|j: int|
                        0 < j < mid.sessions.len() ==> self@.sessions[j] == mid.sessions[j]);
                }
                ProxyAction::Forward {
                    to,
                    direction: PacketDirection::Clientbound,
                    session_id,
                    new_session: false,
                    ambiguous,
                    logged,
                }
            },
        }
    }
}

/// That `logged` is what logging the datagram in a session with the logger
/// `before` yields, and `after` the logger that it leaves.
pub open spec fn logged_in(
    before: LoggerView,
    after: LoggerView,
    direction: PacketDirection,
    data: Seq<u8>,
    timestamp: i64,
    logged: Result<LoggedPacket, LogError>,
) -> bool {
    &&& after == logger_after(before, direction, data, timestamp)
    &&& match logged {
        Ok(p) => log_step(before, direction, data, timestamp) == Ok::<
            (EntryView, Seq<u8>),
            LogError,
        >((p.entry@, p.frame@)),
        Err(e) => log_step(before, direction, data, timestamp) == Err::<
            (EntryView, Seq<u8>),
            LogError,
        >(e),
    }
}

} // verus!
