//! A capture session: one client endpoint, its identity, and its logger.

use vstd::prelude::*;
use crate::packet_logger::{
    log_step, logger_after, EntryView, LogError, LoggedPacket, LoggerView, PacketDirection,
    PacketLogger,
};

verus! {

/// A datagram endpoint: an address and a port.
#[derive(Clone, Copy, Debug, PartialEq, Eq, Hash, Structural)]
pub enum Endpoint {
    V4 { ip: u32, port: u16 },
    V6 { ip6: u128, port: u16, flowinfo: u32, scope_id: u32 },
}

/// Whether an id has the shape of a random identifier: version four of the
/// variant that RFC 4122 lays down.
pub open spec fn is_random_id(id: u128) -> bool {
    (id / 0x1000_0000_0000_0000_0000) % 16 == 4 && (id / 0x4000_0000_0000_0000) % 4 == 2
}

/// Draws a random session id by `uuid::Uuid::new_v4`, which takes random
/// bits from the operating system and sets the version and variant fields;
/// it gives up where the system has no random bits to hand out. The contract
/// claims only the values of those two fields.
#[verifier::external_body]
fn fresh_session_id() -> (id: u128)
    ensures
        is_random_id(id),
{
    uuid::Uuid::new_v4().as_u128()
}

/// The id that `uuid::Uuid::parse_str` reads from a text.
pub uninterp spec fn id_of_text(text: Seq<char>) -> Option<u128>;

/// Reads a session id from its text by `uuid::Uuid::parse_str`, which takes
/// the hyphenated form and the other forms of the uuid crate. The contract
/// only names the result.
#[verifier::external_body]
fn parse_id_text(text: &str) -> (r: Option<u128>)
    ensures
        r == id_of_text(text@),
{
    match uuid::Uuid::parse_str(text) {
        Ok(id) => Some(id.as_u128()),
        Err(_) => None,
    }
}

/// Reads the id of a session from the stem of its log file's name.
pub fn session_id_of_stem(stem: &str) -> (r: Option<u128>)
    ensures
        r == id_of_text(stem@),
{
    parse_id_text(stem)
}

/// A capture session.
#[derive(Debug, PartialEq)]
pub struct Session {
    id: u128,
    client_addr: Endpoint,
    upstream_addr: Endpoint,
    logger: PacketLogger,
}

/// The mathematical form of a `Session`.
pub struct SessionView {
    pub id: u128,
    pub client_addr: Endpoint,
    pub upstream_addr: Endpoint,
    pub logger: LoggerView,
}

impl View for Session {
    type V = SessionView;

    closed spec fn view(&self) -> SessionView {
        SessionView {
            id: self.id,
            client_addr: self.client_addr,
            upstream_addr: self.upstream_addr,
            logger: self.logger@,
        }
    }
}

impl Session {
    /// A new session for the client at `client_addr`, with a random id and a
    /// logger that has counted no packet.
    pub fn new(client_addr: Endpoint, upstream_addr: Endpoint) -> (r: Self)
        ensures
            is_random_id(r@.id),
            r@.client_addr == client_addr,
            r@.upstream_addr == upstream_addr,
            r@.logger == (LoggerView {
                session_id: r@.id,
                protocol_version: "1.21.111"@,
                count: 0,
            }),
    {
        let id = fresh_session_id();
        Session { id, client_addr, upstream_addr, logger: PacketLogger::new(id) }
    }

    /// The id of the session.
    pub fn id(&self) -> (r: u128)
        ensures
            r == self@.id,
    {
        self.id
    }

    /// The endpoint of the client.
    pub fn client_addr(&self) -> (r: Endpoint)
        ensures
            r == self@.client_addr,
    {
        self.client_addr
    }

    /// The endpoint of the upstream server.
    pub fn upstream_addr(&self) -> (r: Endpoint)
        ensures
            r == self@.upstream_addr,
    {
        self.upstream_addr
    }

    /// The session's logger.
    pub fn logger(&self) -> (r: &PacketLogger)
        ensures
            r@ == self@.logger,
    {
        &self.logger
    }

    /// Logs a datagram of the given direction, seen at `timestamp`.
    pub fn log(&mut self, direction: PacketDirection, data: Vec<u8>, timestamp: i64) -> (r: Result<
        LoggedPacket,
        LogError,
    >)
        ensures
            final(self)@ == (SessionView {
                logger: logger_after(old(self)@.logger, direction, data@, timestamp),
                ..old(self)@
            }),
            match r {
                Ok(p) => log_step(old(self)@.logger, direction, data@, timestamp) == Ok::<
                    (EntryView, Seq<u8>),
                    LogError,
                >((p.entry@, p.frame@)),
                Err(e) => log_step(old(self)@.logger, direction, data@, timestamp) == Err::<
                    (EntryView, Seq<u8>),
                    LogError,
                >(e),
            },
    {
        self.logger.log_packet(direction, data, timestamp)
    }

    /// Logs a datagram on its way to the client.
    pub fn log_clientbound(&mut self, data: Vec<u8>, timestamp: i64) -> (r: Result<
        LoggedPacket,
        LogError,
    >)
        ensures
            final(self)@ == (SessionView {
                logger: logger_after(
                    old(self)@.logger,
                    PacketDirection::Clientbound,
                    data@,
                    timestamp,
                ),
                ..old(self)@
            }),
            match r {
                Ok(p) => log_step(
                    old(self)@.logger,
                    PacketDirection::Clientbound,
                    data@,
                    timestamp,
                ) == Ok::<(EntryView, Seq<u8>), LogError>((p.entry@, p.frame@)),
                Err(e) => log_step(
                    old(self)@.logger,
                    PacketDirection::Clientbound,
                    data@,
                    timestamp,
                ) == Err::<(EntryView, Seq<u8>), LogError>(e),
            },
    {
        self.log(PacketDirection::Clientbound, data, timestamp)
    }

    /// Logs a datagram on its way to the upstream server.
    pub fn log_serverbound(&mut self, data: Vec<u8>, timestamp: i64) -> (r: Result<
        LoggedPacket,
        LogError,
    >)
        ensures
            final(self)@ == (SessionView {
                logger: logger_after(
                    old(self)@.logger,
                    PacketDirection::Serverbound,
                    data@,
                    timestamp,
                ),
                ..old(self)@
            }),
            match r {
                Ok(p) => log_step(
                    old(self)@.logger,
                    PacketDirection::Serverbound,
                    data@,
                    timestamp,
                ) == Ok::<(EntryView, Seq<u8>), LogError>((p.entry@, p.frame@)),
                Err(e) => log_step(
                    old(self)@.logger,
                    PacketDirection::Serverbound,
                    data@,
                    timestamp,
                ) == Err::<(EntryView, Seq<u8>), LogError>(e),
            },
    {
        self.log(PacketDirection::Serverbound, data, timestamp)
    }
}

} // verus!
