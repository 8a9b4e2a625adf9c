//! Error kinds of the library, one enum per concern.

use vstd::prelude::*;
use vstd::string::StringSliceAdditionalSpecFns;
use vstd::utf8::*;
use crate::text::{push_str, string_from_utf8};

verus! {

broadcast use {encode_utf8_valid_utf8, valid_utf8_concat, encode_utf8_decode_utf8, decode_utf8_encode_utf8};

/// A control message that does not follow the command grammar.
#[derive(Debug, Clone, PartialEq, Eq)]
pub enum ProtocolError {
    EmptyCommand,
    UnknownCommand(String),
    InvalidFormat(&'static str),
    MissingField(&'static str),
    InvalidAddress(String),
}

/// A well-formed command whose ticker list is not acceptable.
#[derive(Debug, Clone, PartialEq, Eq)]
pub enum CommandError {
    EmptyTickers,
    InvalidTicker(String),
    DuplicateTickers,
    InvalidUri(String),
}

/// A data-channel record that is not an encoded quote.
#[derive(Debug, Clone, PartialEq, Eq)]
pub enum QuoteError {
    InvalidQuote(&'static str),
    MissingField(&'static str),
    InvalidPrice,
    InvalidVolume,
    InvalidTimestamp,
}

/// A ticker catalog source that cannot be loaded.
#[derive(Debug, Clone, PartialEq, Eq)]
pub enum TickersError {
    FileEmpty,
    InvalidLine(String),
    TooManyTickers,
}

/// Failures on the server side.
#[derive(Debug, Clone, PartialEq, Eq)]
pub enum ServerError {
    TcpBindFailed(String),
    TcpAcceptFailed,
    UdpBindFailed(String),
    UdpSendFailed,
    UdpRecvFailed,
    KeepAliveTimeout,
    ClientNotFound,
}

/// Failures on the client side.
#[derive(Debug, Clone, PartialEq, Eq)]
pub enum ClientError {
    TcpConnectFailed(String),
    TcpWriteFailed,
    UdpBindFailed(String),
    UdpRecvFailed,
    PingFailed,
}

/// The message of a `ProtocolError`.
pub open spec fn protocol_text(e: ProtocolError) -> Seq<u8> {
    match e {
        ProtocolError::EmptyCommand => "empty command".spec_bytes(),
        ProtocolError::UnknownCommand(x) => "unknown command: ".spec_bytes() + encode_utf8(x@),
        ProtocolError::InvalidFormat(x) => "invalid format: ".spec_bytes() + x.spec_bytes(),
        ProtocolError::MissingField(x) => "missing field: ".spec_bytes() + x.spec_bytes(),
        ProtocolError::InvalidAddress(x) => "invalid address: ".spec_bytes() + encode_utf8(x@),
    }
}

impl ProtocolError {
    /// Appends the message.
    pub fn push_message(&self, out: &mut Vec<u8>)
        ensures
            final(out)@ == old(out)@ + protocol_text(*self),
    {
        match self {
            ProtocolError::EmptyCommand => push_str(out, "empty command"),
            ProtocolError::UnknownCommand(x) => {
                push_str(out, "unknown command: ");
                push_str(out, x.as_str());
            },
            ProtocolError::InvalidFormat(x) => {
                push_str(out, "invalid format: ");
                push_str(out, x);
            },
            ProtocolError::MissingField(x) => {
                push_str(out, "missing field: ");
                push_str(out, x);
            },
            ProtocolError::InvalidAddress(x) => {
                push_str(out, "invalid address: ");
                push_str(out, x.as_str());
            },
        }
        assert(out@ =~= old(out)@ + protocol_text(*self));
    }

    /// The message, as text.
    pub fn to_string(&self) -> (r: String)
        ensures
            encode_utf8(r@) == protocol_text(*self),
    {
        let mut b: Vec<u8> = Vec::new();
        self.push_message(&mut b);
        assert(b@ =~= protocol_text(*self));
        text_of(&b)
    }
}

/// The message of a `CommandError`.
pub open spec fn command_text(e: CommandError) -> Seq<u8> {
    match e {
        CommandError::EmptyTickers => "empty tickers list".spec_bytes(),
        CommandError::InvalidTicker(x) => "invalid ticker: ".spec_bytes() + encode_utf8(x@),
        CommandError::DuplicateTickers => "duplicate tickers".spec_bytes(),
        CommandError::InvalidUri(x) => "invalid uri: ".spec_bytes() + encode_utf8(x@),
    }
}

impl CommandError {
    /// Appends the message.
    pub fn push_message(&self, out: &mut Vec<u8>)
        ensures
            final(out)@ == old(out)@ + command_text(*self),
    {
        match self {
            CommandError::EmptyTickers => push_str(out, "empty tickers list"),
            CommandError::InvalidTicker(x) => {
                push_str(out, "invalid ticker: ");
                push_str(out, x.as_str());
            },
            CommandError::DuplicateTickers => push_str(out, "duplicate tickers"),
            CommandError::InvalidUri(x) => {
                push_str(out, "invalid uri: ");
                push_str(out, x.as_str());
            },
        }
        assert(out@ =~= old(out)@ + command_text(*self));
    }

    /// The message, as text.
    pub fn to_string(&self) -> (r: String)
        ensures
            encode_utf8(r@) == command_text(*self),
    {
        let mut b: Vec<u8> = Vec::new();
        self.push_message(&mut b);
        assert(b@ =~= command_text(*self));
        text_of(&b)
    }
}

/// The message of a `QuoteError`.
pub open spec fn quote_text(e: QuoteError) -> Seq<u8> {
    match e {
        QuoteError::InvalidQuote(x) => "invalid quote: ".spec_bytes() + x.spec_bytes(),
        QuoteError::MissingField(x) => "missing field: ".spec_bytes() + x.spec_bytes(),
        QuoteError::InvalidPrice => "invalid price".spec_bytes(),
        QuoteError::InvalidVolume => "invalid volume".spec_bytes(),
        QuoteError::InvalidTimestamp => "invalid timestamp".spec_bytes(),
    }
}

impl QuoteError {
    /// Appends the message.
    pub fn push_message(&self, out: &mut Vec<u8>)
        ensures
            final(out)@ == old(out)@ + quote_text(*self),
    {
        match self {
            QuoteError::InvalidQuote(x) => {
                push_str(out, "invalid quote: ");
                push_str(out, x);
            },
            QuoteError::MissingField(x) => {
                push_str(out, "missing field: ");
                push_str(out, x);
            },
            QuoteError::InvalidPrice => push_str(out, "invalid price"),
            QuoteError::InvalidVolume => push_str(out, "invalid volume"),
            QuoteError::InvalidTimestamp => push_str(out, "invalid timestamp"),
        }
        assert(out@ =~= old(out)@ + quote_text(*self));
    }

    /// The message, as text.
    pub fn to_string(&self) -> (r: String)
        ensures
            encode_utf8(r@) == quote_text(*self),
    {
        let mut b: Vec<u8> = Vec::new();
        self.push_message(&mut b);
        assert(b@ =~= quote_text(*self));
        text_of(&b)
    }
}

/// The message of a `TickersError`.
pub open spec fn tickers_text(e: TickersError) -> Seq<u8> {
    match e {
        TickersError::FileEmpty => "tickers file is empty".spec_bytes(),
        TickersError::InvalidLine(x) => "invalid ticker line: ".spec_bytes() + encode_utf8(x@),
        TickersError::TooManyTickers => "too many tickers".spec_bytes(),
    }
}

impl TickersError {
    /// Appends the message.
    pub fn push_message(&self, out: &mut Vec<u8>)
        ensures
            final(out)@ == old(out)@ + tickers_text(*self),
    {
        match self {
            TickersError::FileEmpty => push_str(out, "tickers file is empty"),
            TickersError::InvalidLine(x) => {
                push_str(out, "invalid ticker line: ");
                push_str(out, x.as_str());
            },
            TickersError::TooManyTickers => push_str(out, "too many tickers"),
        }
        assert(out@ =~= old(out)@ + tickers_text(*self));
    }

    /// The message, as text.
    pub fn to_string(&self) -> (r: String)
        ensures
            encode_utf8(r@) == tickers_text(*self),
    {
        let mut b: Vec<u8> = Vec::new();
        self.push_message(&mut b);
        assert(b@ =~= tickers_text(*self));
        text_of(&b)
    }
}

/// The message of a `ServerError`.
pub open spec fn server_text(e: ServerError) -> Seq<u8> {
    match e {
        ServerError::TcpBindFailed(x) => "tcp bind failed: ".spec_bytes() + encode_utf8(x@),
        ServerError::TcpAcceptFailed => "tcp accept failed".spec_bytes(),
        ServerError::UdpBindFailed(x) => "udp bind failed: ".spec_bytes() + encode_utf8(x@),
        ServerError::UdpSendFailed => "udp send failed".spec_bytes(),
        ServerError::UdpRecvFailed => "udp receive failed".spec_bytes(),
        ServerError::KeepAliveTimeout => "keep-alive timeout".spec_bytes(),
        ServerError::ClientNotFound => "client not found".spec_bytes(),
    }
}

impl ServerError {
    /// Appends the message.
    pub fn push_message(&self, out: &mut Vec<u8>)
        ensures
            final(out)@ == old(out)@ + server_text(*self),
    {
        match self {
            ServerError::TcpBindFailed(x) => {
                push_str(out, "tcp bind failed: ");
                push_str(out, x.as_str());
            },
            ServerError::TcpAcceptFailed => push_str(out, "tcp accept failed"),
            ServerError::UdpBindFailed(x) => {
                push_str(out, "udp bind failed: ");
                push_str(out, x.as_str());
            },
            ServerError::UdpSendFailed => push_str(out, "udp send failed"),
            ServerError::UdpRecvFailed => push_str(out, "udp receive failed"),
            ServerError::KeepAliveTimeout => push_str(out, "keep-alive timeout"),
            ServerError::ClientNotFound => push_str(out, "client not found"),
        }
        assert(out@ =~= old(out)@ + server_text(*self));
    }

    /// The message, as text.
    pub fn to_string(&self) -> (r: String)
        ensures
            encode_utf8(r@) == server_text(*self),
    {
        let mut b: Vec<u8> = Vec::new();
        self.push_message(&mut b);
        assert(b@ =~= server_text(*self));
        text_of(&b)
    }
}

/// The message of a `ClientError`.
pub open spec fn client_text(e: ClientError) -> Seq<u8> {
    match e {
        ClientError::TcpConnectFailed(x) => "tcp connect failed: ".spec_bytes() + encode_utf8(x@),
        ClientError::TcpWriteFailed => "tcp write failed".spec_bytes(),
        ClientError::UdpBindFailed(x) => "udp bind failed: ".spec_bytes() + encode_utf8(x@),
        ClientError::UdpRecvFailed => "udp receive failed".spec_bytes(),
        ClientError::PingFailed => "ping failed".spec_bytes(),
    }
}

impl ClientError {
    /// Appends the message.
    pub fn push_message(&self, out: &mut Vec<u8>)
        ensures
            final(out)@ == old(out)@ + client_text(*self),
    {
        match self {
            ClientError::TcpConnectFailed(x) => {
                push_str(out, "tcp connect failed: ");
                push_str(out, x.as_str());
            },
            ClientError::TcpWriteFailed => push_str(out, "tcp write failed"),
            ClientError::UdpBindFailed(x) => {
                push_str(out, "udp bind failed: ");
                push_str(out, x.as_str());
            },
            ClientError::UdpRecvFailed => push_str(out, "udp receive failed"),
            ClientError::PingFailed => push_str(out, "ping failed"),
        }
        assert(out@ =~= old(out)@ + client_text(*self));
    }

    /// The message, as text.
    pub fn to_string(&self) -> (r: String)
        ensures
            encode_utf8(r@) == client_text(*self),
    {
        let mut b: Vec<u8> = Vec::new();
        self.push_message(&mut b);
        assert(b@ =~= client_text(*self));
        text_of(&b)
    }
}

/// The text whose bytes are `b`, which are valid UTF-8.
fn text_of(b: &Vec<u8>) -> (r: String)
    requires
        valid_utf8(b@),
    ensures
        encode_utf8(r@) == b@,
{
    match string_from_utf8(b.as_slice()) {
        Some(s) => s,
        None => String::new(),
    }
}

} // verus!
