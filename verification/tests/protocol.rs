use streaming_quotes::protocol::{
    err_empty_ticker_list, err_invalid_command, err_invalid_udp_address, err_unknown_ticker,
    error_to_response, ok_response, parse_stream_command, ParseStreamError, StreamCommand,
};
use streaming_quotes::quote::Ticker;
use streaming_quotes::tickers::TickerSet;

fn create_available_tickers() -> TickerSet {
    let mut set = TickerSet::new();
    set.insert("AAPL".to_string());
    set.insert("MSFT".to_string());
    set.insert("TSLA".to_string());
    set.insert("BRK.B".to_string());
    set
}

/// Accepts IPv4 socket addresses `a.b.c.d:port` and gives back their text.
fn parse_ipv4_socket_addr(s: &str) -> Option<String> {
    let (host, port) = s.rsplit_once(':')?;
    port.parse::<u16>().ok()?;
    let octets: Vec<&str> = host.split('.').collect();
    if octets.len() != 4 || octets.iter().any(|o| o.parse::<u8>().is_err()) {
        return None;
    }
    Some(s.to_string())
}

fn parse(line: &str, available: &TickerSet) -> Result<StreamCommand<String>, ParseStreamError> {
    parse_stream_command(line, available, parse_ipv4_socket_addr)
}

#[test]
fn test_parse_valid_command() {
    let available = create_available_tickers();
    let result = parse("STREAM 127.0.0.1:9000 AAPL,MSFT\n", &available).unwrap();

    assert_eq!(result.udp_addr, "127.0.0.1:9000");
    assert_eq!(
        result.tickers,
        vec![Ticker("AAPL".to_string()), Ticker("MSFT".to_string())]
    );
}

#[test]
fn test_parse_command_with_spaces() {
    let available = create_available_tickers();
    let result = parse("STREAM 127.0.0.1:9000  AAPL,  MSFT , TSLA  \n", &available).unwrap();

    assert_eq!(result.udp_addr, "127.0.0.1:9000");
    assert_eq!(
        result.tickers,
        vec![
            Ticker("AAPL".to_string()),
            Ticker("MSFT".to_string()),
            Ticker("TSLA".to_string())
        ]
    );
}

#[test]
fn test_parse_command_with_ticker_containing_dot() {
    let available = create_available_tickers();
    let result = parse("STREAM 127.0.0.1:9000 BRK.B\n", &available).unwrap();

    assert_eq!(result.udp_addr, "127.0.0.1:9000");
    assert_eq!(result.tickers, vec![Ticker("BRK.B".to_string())]);
}

#[test]
fn test_parse_command_without_newline() {
    let available = create_available_tickers();
    let result = parse("STREAM 127.0.0.1:9000 AAPL,MSFT", &available).unwrap();

    assert_eq!(result.udp_addr, "127.0.0.1:9000");
    assert_eq!(result.tickers.len(), 2);
}

#[test]
fn test_error_invalid_command_no_prefix() {
    let available = create_available_tickers();
    let result = parse("STREEM 127.0.0.1:9000 AAPL\n", &available);
    assert_eq!(result, Err(ParseStreamError::InvalidCommand));
}

#[test]
fn test_error_invalid_command_wrong_parts() {
    let available = create_available_tickers();
    let result = parse("STREAM 127.0.0.1:9000 AAPL MSFT\n", &available);
    assert_eq!(result, Err(ParseStreamError::InvalidCommand));
}

#[test]
fn test_error_invalid_udp_address() {
    let available = create_available_tickers();
    let result = parse("STREAM not-an-address AAPL\n", &available);
    assert_eq!(result, Err(ParseStreamError::InvalidUdpAddress));
}

#[test]
fn test_error_empty_ticker_list() {
    let available = create_available_tickers();
    let result = parse("STREAM 127.0.0.1:9000 \n", &available);
    assert_eq!(result, Err(ParseStreamError::EmptyTickerList));
}

#[test]
fn test_error_empty_ticker_list_only_commas() {
    let available = create_available_tickers();
    let result = parse("STREAM 127.0.0.1:9000 , , \n", &available);
    assert_eq!(result, Err(ParseStreamError::EmptyTickerList));
}

#[test]
fn test_error_unknown_ticker() {
    let available = create_available_tickers();
    let result = parse("STREAM 127.0.0.1:9000 AAPL,GOOGL\n", &available);
    assert_eq!(
        result,
        Err(ParseStreamError::UnknownTicker {
            ticker: "GOOGL".to_string()
        })
    );
}

#[test]
fn test_error_unknown_ticker_first() {
    let available = create_available_tickers();
    let result = parse("STREAM 127.0.0.1:9000 GOOGL,AAPL\n", &available);
    assert_eq!(
        result,
        Err(ParseStreamError::UnknownTicker {
            ticker: "GOOGL".to_string()
        })
    );
}

#[test]
fn test_ok_response() {
    assert_eq!(ok_response(), "OK\n");
}

#[test]
fn test_err_invalid_command() {
    assert_eq!(err_invalid_command(), "ERR invalid command\n");
}

#[test]
fn test_err_invalid_udp_address() {
    assert_eq!(err_invalid_udp_address(), "ERR invalid udp address\n");
}

#[test]
fn test_err_empty_ticker_list() {
    assert_eq!(err_empty_ticker_list(), "ERR empty ticker list\n");
}

#[test]
fn test_err_unknown_ticker() {
    assert_eq!(err_unknown_ticker("AAPL"), "ERR unknown ticker: AAPL\n");
}

#[test]
fn test_error_to_response() {
    let error = ParseStreamError::InvalidCommand;
    assert_eq!(error_to_response(&error), "ERR invalid command\n");

    let error = ParseStreamError::InvalidUdpAddress;
    assert_eq!(error_to_response(&error), "ERR invalid udp address\n");

    let error = ParseStreamError::EmptyTickerList;
    assert_eq!(error_to_response(&error), "ERR empty ticker list\n");

    let error = ParseStreamError::UnknownTicker {
        ticker: "GOOGL".to_string(),
    };
    assert_eq!(error_to_response(&error), "ERR unknown ticker: GOOGL\n");
}

#[test]
fn test_parse_display_roundtrip() {
    let available = create_available_tickers();
    let original = "STREAM 127.0.0.1:9000 AAPL,MSFT,TSLA\n";
    let parsed = parse(original, &available).unwrap();

    assert_eq!(parsed.udp_addr, "127.0.0.1:9000");
    assert_eq!(parsed.tickers.len(), 3);
    assert_eq!(parsed.tickers[0].0, "AAPL");
    assert_eq!(parsed.tickers[1].0, "MSFT");
    assert_eq!(parsed.tickers[2].0, "TSLA");
}
