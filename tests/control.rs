use quote_stream::catalog::Catalog;
use quote_stream::command::{parse_command, parse_endpoint, Command, RequestError};
use quote_stream::error::{CommandError, ProtocolError};
use quote_stream::registry::Endpoint;

fn catalog() -> Catalog {
    Catalog::load("AAA\nBBB\nCCC\n", 10).unwrap()
}

fn local(port: u16) -> Endpoint {
    Endpoint { host: 0x7f00_0001, port }
}

#[test]
fn parses_subscribe() {
    match parse_command(b"SUBSCRIBE BBB,AAA 127.0.0.1:9000", &catalog()) {
        Ok(Command::Subscribe { tickers, endpoint }) => {
            assert_eq!(tickers, vec![1, 0]);
            assert_eq!(endpoint, local(9000));
        }
        other => panic!("unexpected {:?}", other),
    }
}

#[test]
fn parses_ping_and_unsubscribe() {
    assert!(matches!(parse_command(b"PING", &catalog()), Ok(Command::Ping)));
    assert!(matches!(parse_command(b"  PING \r\n", &catalog()), Ok(Command::Ping)));
    assert!(matches!(parse_command(b"UNSUBSCRIBE\n", &catalog()), Ok(Command::Unsubscribe)));
}

#[test]
fn refuses_empty_and_unknown_commands() {
    assert_eq!(
        parse_command(b"", &catalog()).unwrap_err(),
        RequestError::Protocol(ProtocolError::EmptyCommand)
    );
    assert_eq!(
        parse_command(b" \t\n", &catalog()).unwrap_err(),
        RequestError::Protocol(ProtocolError::EmptyCommand)
    );
    assert_eq!(
        parse_command(b"HELLO there", &catalog()).unwrap_err(),
        RequestError::Protocol(ProtocolError::UnknownCommand("HELLO".to_string()))
    );
    assert!(matches!(
        parse_command(&[0xff, 0xfe], &catalog()),
        Err(RequestError::Protocol(ProtocolError::InvalidFormat(_)))
    ));
}

#[test]
fn refuses_wrong_argument_counts() {
    assert!(matches!(
        parse_command(b"PING now", &catalog()),
        Err(RequestError::Protocol(ProtocolError::InvalidFormat(_)))
    ));
    assert_eq!(
        parse_command(b"SUBSCRIBE", &catalog()).unwrap_err(),
        RequestError::Protocol(ProtocolError::MissingField("tickers"))
    );
    assert_eq!(
        parse_command(b"SUBSCRIBE AAA", &catalog()).unwrap_err(),
        RequestError::Protocol(ProtocolError::MissingField("endpoint"))
    );
    assert!(matches!(
        parse_command(b"SUBSCRIBE AAA 127.0.0.1:1 extra", &catalog()),
        Err(RequestError::Protocol(ProtocolError::InvalidFormat(_)))
    ));
}

#[test]
fn refuses_bad_ticker_lists() {
    assert_eq!(
        parse_command(b"SUBSCRIBE , 127.0.0.1:9000", &catalog()).unwrap_err(),
        RequestError::Command(CommandError::EmptyTickers)
    );
    assert_eq!(
        parse_command(b"SUBSCRIBE AAA,AAA 127.0.0.1:9000", &catalog()).unwrap_err(),
        RequestError::Command(CommandError::DuplicateTickers)
    );
    assert_eq!(
        parse_command(b"SUBSCRIBE AAA,XYZ 127.0.0.1:9000", &catalog()).unwrap_err(),
        RequestError::Command(CommandError::InvalidTicker("XYZ".to_string()))
    );
}

#[test]
fn refuses_bad_addresses() {
    for addr in ["127.0.0.1", "127.0.0:1", "256.0.0.1:1", "1.2.3.4:65536", "01.2.3.4:1", "a.b.c.d:1"] {
        let msg = format!("SUBSCRIBE AAA {}", addr);
        assert_eq!(
            parse_command(msg.as_bytes(), &catalog()).unwrap_err(),
            RequestError::Protocol(ProtocolError::InvalidAddress(addr.to_string()))
        );
    }
}

#[test]
fn reads_endpoints() {
    assert_eq!(parse_endpoint(b"10.0.0.255:65535"), Some(Endpoint { host: 0x0a00_00ff, port: 65535 }));
    assert_eq!(parse_endpoint(b"0.0.0.0:0"), Some(Endpoint { host: 0, port: 0 }));
    assert_eq!(parse_endpoint(b"1.2.3.4"), None);
    assert_eq!(parse_endpoint(b"+1.2.3.4:5"), None);
    assert_eq!(parse_endpoint(b"1.2.3.4:+5"), None);
}
