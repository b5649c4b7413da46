use streaming_quotes::quote::{ParseQuoteError, StockQuote, Ticker, Timestamp, Volume};

fn read_quote(line: &str) -> Result<StockQuote<f64>, ParseQuoteError> {
    StockQuote::from_wire_line(line, |s: &str| s.parse::<f64>().ok())
}

fn write_quote(quote: &StockQuote<f64>) -> String {
    quote.to_wire_line(&quote.price.to_string())
}

#[test]
fn test_from_wire_line_ok() {
    let line = "AAPL|150.25|4200|1710000000123";
    let quote = read_quote(line).unwrap();

    assert_eq!(quote.ticker.0, "AAPL");
    assert_eq!(quote.price, 150.25);
    assert_eq!(quote.volume.0, 4200);
    assert_eq!(quote.timestamp_ms.0, 1710000000123);
}

#[test]
fn test_to_wire_line_format() {
    let quote = StockQuote::new(
        Ticker("AAPL".to_string()),
        150.25,
        Volume(4200),
        Timestamp(1710000000123),
    );

    assert_eq!(write_quote(&quote), "AAPL|150.25|4200|1710000000123");
}

#[test]
fn test_roundtrip() {
    let original = StockQuote::new(
        Ticker("BRK.B".to_string()),
        123.456,
        Volume(100),
        Timestamp(1234567890),
    );

    let wire = write_quote(&original);
    let parsed = read_quote(&wire).unwrap();

    assert_eq!(original, parsed);
}

#[test]
fn test_from_wire_line_errors() {
    let test_cases = vec![
        (
            "AAPL|150.25|4200",
            ParseQuoteError::InvalidFieldCount {
                expected: 4,
                actual: 3,
            },
        ),
        (
            "AAPL|invalid|4200|123",
            ParseQuoteError::InvalidPrice {
                value: "invalid".to_string(),
            },
        ),
        (
            "AAPL|150.25|invalid|123",
            ParseQuoteError::InvalidVolume {
                value: "invalid".to_string(),
            },
        ),
        (
            "AAPL|150.25|4200|invalid",
            ParseQuoteError::InvalidTimestamp {
                value: "invalid".to_string(),
            },
        ),
        ("|150.25|4200|123", ParseQuoteError::EmptyTicker),
        (" |150.25|4200|123", ParseQuoteError::EmptyTicker),
    ];

    for (input, expected_error) in test_cases {
        let result = read_quote(input);
        assert_eq!(result, Err(expected_error));
    }
}

#[test]
fn test_ticker_trim() {
    let line = " AAPL |150.25|4200|123";
    let quote = read_quote(line).unwrap();
    assert_eq!(quote.ticker.0, "AAPL");
}

#[test]
fn test_display_impls() {
    let ticker = Ticker("AAPL".to_string());
    let price = 150.25f64;
    let volume = Volume(4200);
    let timestamp = Timestamp(1710000000123);

    assert_eq!(ticker.to_string(), "AAPL");
    assert_eq!(format!("{}", price), "150.25");
    assert_eq!(volume.to_string(), "4200");
    assert_eq!(timestamp.to_string(), "1710000000123");
}
