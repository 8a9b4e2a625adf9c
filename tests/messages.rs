use quote_stream::error::{ClientError, CommandError, ProtocolError, QuoteError, ServerError, TickersError};

#[test]
fn protocol_messages() {
    assert_eq!(ProtocolError::EmptyCommand.to_string(), "empty command");
    assert_eq!(ProtocolError::UnknownCommand("JUMP".to_string()).to_string(), "unknown command: JUMP");
    assert_eq!(ProtocolError::InvalidFormat("x").to_string(), "invalid format: x");
    assert_eq!(ProtocolError::MissingField("endpoint").to_string(), "missing field: endpoint");
    assert_eq!(ProtocolError::InvalidAddress("a:b".to_string()).to_string(), "invalid address: a:b");
}

#[test]
fn command_messages() {
    assert_eq!(CommandError::EmptyTickers.to_string(), "empty tickers list");
    assert_eq!(CommandError::InvalidTicker("XYZ".to_string()).to_string(), "invalid ticker: XYZ");
    assert_eq!(CommandError::DuplicateTickers.to_string(), "duplicate tickers");
    assert_eq!(CommandError::InvalidUri("u".to_string()).to_string(), "invalid uri: u");
}

#[test]
fn quote_and_catalog_messages() {
    assert_eq!(QuoteError::InvalidQuote("bad").to_string(), "invalid quote: bad");
    assert_eq!(QuoteError::MissingField("price").to_string(), "missing field: price");
    assert_eq!(QuoteError::InvalidPrice.to_string(), "invalid price");
    assert_eq!(QuoteError::InvalidVolume.to_string(), "invalid volume");
    assert_eq!(QuoteError::InvalidTimestamp.to_string(), "invalid timestamp");
    assert_eq!(TickersError::FileEmpty.to_string(), "tickers file is empty");
    assert_eq!(TickersError::InvalidLine("é x".to_string()).to_string(), "invalid ticker line: é x");
    assert_eq!(TickersError::TooManyTickers.to_string(), "too many tickers");
}

#[test]
fn transport_messages() {
    assert_eq!(ServerError::TcpBindFailed("0.0.0.0:1".to_string()).to_string(), "tcp bind failed: 0.0.0.0:1");
    assert_eq!(ServerError::TcpAcceptFailed.to_string(), "tcp accept failed");
    assert_eq!(ServerError::UdpBindFailed("h".to_string()).to_string(), "udp bind failed: h");
    assert_eq!(ServerError::UdpSendFailed.to_string(), "udp send failed");
    assert_eq!(ServerError::UdpRecvFailed.to_string(), "udp receive failed");
    assert_eq!(ServerError::KeepAliveTimeout.to_string(), "keep-alive timeout");
    assert_eq!(ServerError::ClientNotFound.to_string(), "client not found");
    assert_eq!(ClientError::TcpConnectFailed("s".to_string()).to_string(), "tcp connect failed: s");
    assert_eq!(ClientError::TcpWriteFailed.to_string(), "tcp write failed");
    assert_eq!(ClientError::UdpBindFailed("d".to_string()).to_string(), "udp bind failed: d");
    assert_eq!(ClientError::UdpRecvFailed.to_string(), "udp receive failed");
    assert_eq!(ClientError::PingFailed.to_string(), "ping failed");
}
