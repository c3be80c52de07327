pub mod addr;
pub mod dec;
pub mod relay;
pub mod session;
pub mod store;

use vstd::prelude::*;

use crate::dec::{parse_u64_dec, spec_parse_u64};

verus! {

/// Default idle timeout for a session, in milliseconds.
pub const DEFAULT_TIMEOUT_MS: u64 = 30_000;
/// Upper bound a receiver clamps a requested idle timeout to, in milliseconds.
pub const MAX_TIMEOUT_MS: u64 = 300_000;
/// Largest payload the relay puts in one outbound binary frame.
pub const MAX_BYTES_WS_MESSAGE: usize = 8192;

/// Which way this end of the tunnel points: accepting TCP and dialing
/// WebSockets, or accepting WebSockets and dialing TCP.
#[derive(Debug, Clone, Copy, PartialEq, Eq, Structural)]
pub enum Direction {
    WsToTcp,
    TcpToWs,
}

impl Direction {
    pub fn label(&self) -> (r: &'static str)
        ensures
            *self is WsToTcp ==> r@ == "WsToTcp"@,
            *self is TcpToWs ==> r@ == "TcpToWs"@,
    {
        match self {
            Direction::WsToTcp => "WsToTcp",
            Direction::TcpToWs => "TcpToWs",
        }
    }
}

/// A requested idle timeout, clamped to [`MAX_TIMEOUT_MS`].
pub open spec fn clamped_timeout(t: u64) -> u64 {
    if t <= MAX_TIMEOUT_MS {
        t
    } else {
        MAX_TIMEOUT_MS
    }
}

/// The session id carried in the `x-tow-id` upgrade header: its decimal
/// value, or zero when the header is missing or malformed.
pub fn decode_id_header(raw: Option<&[u8]>) -> (r: u64)
    ensures
        raw is None ==> r == 0,
        raw matches Some(s) ==> r == (match spec_parse_u64(s@) {
            Option::Some(v) => v,
            Option::None => 0u64,
        }),
{
    match raw {
        Option::Some(s) => match parse_u64_dec(s) {
            Option::Some(v) => v,
            Option::None => 0,
        },
        Option::None => 0,
    }
}

/// The idle timeout carried in the `x-tow-timeout` upgrade header: its
/// decimal value clamped to [`MAX_TIMEOUT_MS`], or [`DEFAULT_TIMEOUT_MS`]
/// when the header is missing or malformed.
pub fn decode_timeout_header(raw: Option<&[u8]>) -> (r: u64)
    ensures
        raw is None ==> r == DEFAULT_TIMEOUT_MS,
        raw matches Some(s) ==> r == clamped_timeout(
            match spec_parse_u64(s@) {
                Option::Some(v) => v,
                Option::None => DEFAULT_TIMEOUT_MS,
            },
        ),
{
    let v = match raw {
        Option::Some(s) => match parse_u64_dec(s) {
            Option::Some(v) => v,
            Option::None => DEFAULT_TIMEOUT_MS,
        },
        Option::None => DEFAULT_TIMEOUT_MS,
    };
    if v <= MAX_TIMEOUT_MS {
        v
    } else {
        MAX_TIMEOUT_MS
    }
}

} // verus!
