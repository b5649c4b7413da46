use streaming_quotes::protocol::{
    finish_stream_command, is_ok_response, parse_stream_command, parse_ticker_list, response_for,
    split_stream_command, stream_command_line, ParseStreamError, StreamCommand, StreamParts,
};
use streaming_quotes::quote::{ParseQuoteError, StockQuote, Ticker, Timestamp, Volume, WireFields};
use streaming_quotes::tickers::{parse_tickers, read_tickers_to_set, TickerSet, TickersError};

fn known(names: &[&str]) -> TickerSet {
    let mut set = TickerSet::new();
    for name in names {
        set.insert(name.to_string());
    }
    set
}

fn accept_any_addr(s: &str) -> Option<String> {
    Some(s.to_string())
}

fn read_quote(line: &str) -> Result<StockQuote<f64>, ParseQuoteError> {
    StockQuote::from_wire_line(line, |s: &str| s.parse::<f64>().ok())
}

#[test]
fn command_line_is_written_as_the_protocol_says() {
    let tickers = vec!["AAPL".to_string(), "MSFT".to_string()];
    assert_eq!(
        stream_command_line("127.0.0.1:9000", &tickers),
        "STREAM 127.0.0.1:9000 AAPL,MSFT\n"
    );
    let single = vec!["BRK.B".to_string()];
    assert_eq!(stream_command_line("10.0.0.1:1", &single), "STREAM 10.0.0.1:1 BRK.B\n");
}

#[test]
fn written_command_line_reads_back() {
    let tickers = vec!["AAPL".to_string(), "BRK.B".to_string(), "TSLA".to_string()];
    let line = stream_command_line("192.168.1.7:9001", &tickers);
    let parts = split_stream_command(&line).unwrap();
    assert_eq!(parts.udp_addr, "192.168.1.7:9001");
    assert_eq!(parts.tickers, "AAPL,BRK.B,TSLA");
    let command = parse_stream_command(&line, &known(&["AAPL", "BRK.B", "TSLA"]), accept_any_addr).unwrap();
    assert_eq!(command.udp_addr, "192.168.1.7:9001");
    assert_eq!(
        command.tickers,
        vec![
            Ticker("AAPL".to_string()),
            Ticker("BRK.B".to_string()),
            Ticker("TSLA".to_string())
        ]
    );
}

#[test]
fn prefix_is_matched_as_a_prefix_only() {
    let parts = split_stream_command("STREAMING 1.2.3.4:5 AAPL").unwrap();
    assert_eq!(parts.udp_addr, "1.2.3.4:5");
    assert_eq!(parts.tickers, "AAPL");
}

#[test]
fn leading_whitespace_and_newlines_are_dropped() {
    let parts = split_stream_command("  \t STREAM 1.2.3.4:5 AAPL\n\n\n").unwrap();
    assert_eq!(parts.tickers, "AAPL");
    assert_eq!(split_stream_command("STREAM"), Err(ParseStreamError::InvalidCommand));
    assert_eq!(split_stream_command("STREAM a"), Err(ParseStreamError::InvalidCommand));
    assert_eq!(split_stream_command(""), Err(ParseStreamError::InvalidCommand));
}

#[test]
fn unicode_whitespace_is_trimmed_around_tickers() {
    let parts = split_stream_command("STREAM 1.2.3.4:5 \u{a0}AAPL\u{3000}").unwrap();
    assert_eq!(parts.tickers, "AAPL");
    let tickers = parse_ticker_list(" \u{2003}MSFT ,\tAAPL", &known(&["AAPL", "MSFT"])).unwrap();
    assert_eq!(tickers, vec![Ticker("MSFT".to_string()), Ticker("AAPL".to_string())]);
}

#[test]
fn ticker_with_inner_space_is_an_invalid_command() {
    assert_eq!(
        split_stream_command("STREAM 1.2.3.4:5 AAPL,MS FT"),
        Err(ParseStreamError::InvalidCommand)
    );
}

#[test]
fn invalid_address_is_reported_before_unknown_tickers() {
    let parts = StreamParts {
        udp_addr: "nowhere".to_string(),
        tickers: "GOOGL".to_string(),
    };
    let outcome: Result<StreamCommand<String>, ParseStreamError> =
        finish_stream_command(parts, None, &known(&["AAPL"]));
    assert_eq!(outcome, Err(ParseStreamError::InvalidUdpAddress));
}

#[test]
fn ticker_list_errors() {
    let available = known(&["AAPL"]);
    assert_eq!(parse_ticker_list(" , ,", &available), Err(ParseStreamError::EmptyTickerList));
    assert_eq!(parse_ticker_list("", &available), Err(ParseStreamError::EmptyTickerList));
    assert_eq!(
        parse_ticker_list("AAPL,,X", &available),
        Err(ParseStreamError::UnknownTicker { ticker: "X".to_string() })
    );
    assert_eq!(
        parse_ticker_list(",AAPL,", &available),
        Ok(vec![Ticker("AAPL".to_string())])
    );
}

#[test]
fn responses_follow_the_outcome() {
    let ok: Result<StreamCommand<String>, ParseStreamError> = Ok(StreamCommand {
        udp_addr: "a".to_string(),
        tickers: vec![],
    });
    assert_eq!(response_for(&ok), "OK\n");
    let err: Result<StreamCommand<String>, ParseStreamError> =
        Err(ParseStreamError::UnknownTicker { ticker: "Z".to_string() });
    assert_eq!(response_for(&err), "ERR unknown ticker: Z\n");
}

#[test]
fn stream_error_messages() {
    assert_eq!(ParseStreamError::InvalidCommand.to_string(), "Invalid command format");
    assert_eq!(ParseStreamError::InvalidUdpAddress.to_string(), "Invalid UDP address format");
    assert_eq!(ParseStreamError::EmptyTickerList.to_string(), "Ticker list is empty");
    assert_eq!(
        ParseStreamError::UnknownTicker { ticker: "GOOGL".to_string() }.to_string(),
        "Unknown ticker: GOOGL"
    );
}

#[test]
fn ok_response_is_recognised_after_trimming() {
    assert!(is_ok_response("OK\n"));
    assert!(is_ok_response("  OK\r\n"));
    assert!(!is_ok_response("ERR invalid command\n"));
    assert!(!is_ok_response("OKAY"));
    assert!(!is_ok_response(""));
}

#[test]
fn quote_error_messages() {
    assert_eq!(
        ParseQuoteError::InvalidFieldCount { expected: 4, actual: 12 }.to_string(),
        "Expected 4 fields separated by '|', got 12"
    );
    assert_eq!(
        ParseQuoteError::InvalidPrice { value: "x".to_string() }.to_string(),
        "Invalid price format: 'x' (expected number)"
    );
    assert_eq!(
        ParseQuoteError::InvalidVolume { value: "-1".to_string() }.to_string(),
        "Invalid volume format: '-1' (expected unsigned integer)"
    );
    assert_eq!(
        ParseQuoteError::InvalidTimestamp { value: "".to_string() }.to_string(),
        "Invalid timestamp format: '' (expected unsigned integer)"
    );
    assert_eq!(ParseQuoteError::EmptyTicker.to_string(), "The ticker cannot be empty");
}

#[test]
fn integer_fields_follow_from_str() {
    let q = read_quote("A|1|+42|0").unwrap();
    assert_eq!(q.volume, Volume(42));
    assert_eq!(q.timestamp_ms, Timestamp(0));
    let q = read_quote("A|1|4294967295|18446744073709551615").unwrap();
    assert_eq!(q.volume.0, u32::MAX);
    assert_eq!(q.timestamp_ms.0, u64::MAX);
    assert_eq!(
        read_quote("A|1|4294967296|0"),
        Err(ParseQuoteError::InvalidVolume { value: "4294967296".to_string() })
    );
    assert_eq!(
        read_quote("A|1|7|18446744073709551616"),
        Err(ParseQuoteError::InvalidTimestamp { value: "18446744073709551616".to_string() })
    );
    assert_eq!(
        read_quote("A|1|-1|0"),
        Err(ParseQuoteError::InvalidVolume { value: "-1".to_string() })
    );
    assert_eq!(
        read_quote("A|1|+|0"),
        Err(ParseQuoteError::InvalidVolume { value: "+".to_string() })
    );
    assert_eq!(
        read_quote("A|1| 5|0"),
        Err(ParseQuoteError::InvalidVolume { value: " 5".to_string() })
    );
    assert_eq!(read_quote("A|1|007|0010").unwrap().timestamp_ms.0, 10);
}

#[test]
fn field_count_and_price_order() {
    assert_eq!(
        read_quote("a|b|c|d|e"),
        Err(ParseQuoteError::InvalidFieldCount { expected: 4, actual: 5 })
    );
    assert_eq!(
        read_quote(""),
        Err(ParseQuoteError::InvalidFieldCount { expected: 4, actual: 1 })
    );
    assert_eq!(
        read_quote("  |x|y|z"),
        Err(ParseQuoteError::EmptyTicker)
    );
    assert_eq!(
        read_quote("AAPL|x|y|z"),
        Err(ParseQuoteError::InvalidPrice { value: "x".to_string() })
    );
}

#[test]
fn split_wire_line_keeps_raw_fields() {
    let fields = streaming_quotes::quote::split_wire_line("\tIBM |1.5| 3|4 ").unwrap();
    assert_eq!(
        fields,
        WireFields {
            ticker: "IBM".to_string(),
            price: "1.5".to_string(),
            volume: " 3".to_string(),
            timestamp: "4 ".to_string(),
        }
    );
}

#[test]
fn written_quote_reads_back() {
    let quote = StockQuote::new(Ticker("X.Y".to_string()), 0.5f64, Volume(0), Timestamp(99));
    let line = quote.to_wire_line("0.5");
    assert_eq!(line, "X.Y|0.5|0|99");
    assert_eq!(read_quote(&line), Ok(quote));
}

#[test]
fn tickers_file_trims_and_skips_blank_lines() {
    let tickers = parse_tickers("\r\n  AAPL\r\nMSFT\t\n\u{a0}\n").unwrap();
    assert_eq!(tickers, vec![Ticker("AAPL".to_string()), Ticker("MSFT".to_string())]);
    assert_eq!(parse_tickers(" \t "), Err(TickersError::EmptyFile));
    assert_eq!(parse_tickers("GOOGL").unwrap(), vec![Ticker("GOOGL".to_string())]);
}

#[test]
fn tickers_set_holds_each_ticker_once() {
    let set = read_tickers_to_set("AAPL\nMSFT\nAAPL\n\n").unwrap();
    assert_eq!(set.len(), 2);
    assert!(set.contains("AAPL"));
    assert!(set.contains("MSFT"));
    assert!(!set.contains("TSLA"));
    assert!(read_tickers_to_set("\n").is_err());
}

#[test]
fn ticker_set_insert_reports_novelty() {
    let mut set = TickerSet::new();
    assert_eq!(set.len(), 0);
    assert!(set.insert("AAPL".to_string()));
    assert!(!set.insert("AAPL".to_string()));
    assert!(set.insert("aapl".to_string()));
    assert_eq!(set.len(), 2);
    assert!(!set.contains("AAP"));
}

#[test]
fn io_failures_map_to_tickers_errors() {
    assert_eq!(
        TickersError::from_io_error(true, "No such file".to_string()),
        TickersError::FileNotFound
    );
    assert_eq!(
        TickersError::from_io_error(false, "denied".to_string()),
        TickersError::IoError("denied".to_string())
    );
}

#[test]
fn tickers_written_one_per_line_read_back() {
    let listed = vec!["AAPL", "BRK.B", "MSFT"];
    let content = listed.join("\n");
    let tickers = parse_tickers(&content).unwrap();
    let names: Vec<&str> = tickers.iter().map(|t| t.0.as_str()).collect();
    assert_eq!(names, listed);
}

#[test]
fn error_answers_never_read_as_ok() {
    let errors = vec![
        ParseStreamError::InvalidCommand,
        ParseStreamError::InvalidUdpAddress,
        ParseStreamError::EmptyTickerList,
        ParseStreamError::UnknownTicker { ticker: "OK".to_string() },
    ];
    for e in errors {
        let answer = streaming_quotes::protocol::error_to_response(&e);
        assert!(answer.starts_with("ERR "));
        assert!(answer.ends_with('\n'));
        assert!(!is_ok_response(&answer));
    }
}

#[test]
fn trailing_newline_does_not_change_the_parse() {
    for line in ["STREAM 1.2.3.4:5 AAPL", "STREAM x", "  ", "STREAM 1.2.3.4:5 AAPL,ZZ", "STREAM a  ,"] {
        let with_newline = format!("{}\n", line);
        assert_eq!(split_stream_command(line), split_stream_command(&with_newline));
    }
}

#[test]
fn more_known_tickers_keep_outcomes() {
    let small = known(&["AAPL"]);
    let large = known(&["AAPL", "MSFT"]);
    assert_eq!(parse_ticker_list("AAPL", &small), parse_ticker_list("AAPL", &large));
    assert_eq!(parse_ticker_list(" , ", &small), parse_ticker_list(" , ", &large));
    assert_eq!(
        parse_ticker_list("AAPL,MSFT", &small),
        Err(ParseStreamError::UnknownTicker { ticker: "MSFT".to_string() })
    );
    assert!(parse_ticker_list("AAPL,MSFT", &large).is_ok());
}

#[test]
fn distinct_errors_get_distinct_answers() {
    let errors = vec![
        ParseStreamError::InvalidCommand,
        ParseStreamError::InvalidUdpAddress,
        ParseStreamError::EmptyTickerList,
        ParseStreamError::UnknownTicker { ticker: "A".to_string() },
        ParseStreamError::UnknownTicker { ticker: "B".to_string() },
    ];
    for (i, a) in errors.iter().enumerate() {
        for (j, b) in errors.iter().enumerate() {
            let ra = streaming_quotes::protocol::error_to_response(a);
            let rb = streaming_quotes::protocol::error_to_response(b);
            assert_eq!(i == j, ra == rb);
        }
    }
}
