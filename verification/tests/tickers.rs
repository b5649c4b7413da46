use streaming_quotes::tickers::{parse_tickers, TickerSet, TickersError};

#[test]
fn test_read_tickers_from_file_ok() {
    let data = "AAPL\nMSFT\nTSLA\n";
    let result = parse_tickers(data).unwrap();

    assert_eq!(result.len(), 3);
    assert_eq!(result[0].0, "AAPL");
    assert_eq!(result[1].0, "MSFT");
    assert_eq!(result[2].0, "TSLA");
}

#[test]
fn test_read_tickers_with_empty_lines() {
    let data = "AAPL\n\nMSFT\n\n\nTSLA\n";
    let result = parse_tickers(data).unwrap();

    assert_eq!(result.len(), 3);
    assert_eq!(result[0].0, "AAPL");
    assert_eq!(result[1].0, "MSFT");
    assert_eq!(result[2].0, "TSLA");
}

#[test]
fn test_read_tickers_with_spaces() {
    let data = "  AAPL  \n  MSFT  \n  TSLA  \n";
    let result = parse_tickers(data).unwrap();

    assert_eq!(result.len(), 3);
    assert_eq!(result[0].0, "AAPL");
    assert_eq!(result[1].0, "MSFT");
    assert_eq!(result[2].0, "TSLA");
}

#[test]
fn test_read_tickers_with_ticker_containing_dot() {
    let data = "AAPL\nBRK.B\nMSFT\n";
    let result = parse_tickers(data).unwrap();

    assert_eq!(result.len(), 3);
    assert_eq!(result[0].0, "AAPL");
    assert_eq!(result[1].0, "BRK.B");
    assert_eq!(result[2].0, "MSFT");
}

#[test]
fn test_read_tickers_empty_file() {
    let data = "";
    let result = parse_tickers(data);

    assert_eq!(result, Err(TickersError::EmptyFile));
}

#[test]
fn test_read_tickers_only_empty_lines() {
    let data = "\n\n\n  \n  \n";
    let result = parse_tickers(data);

    assert_eq!(result, Err(TickersError::EmptyFile));
}

#[test]
fn test_read_tickers_to_set() {
    let data = "AAPL\nMSFT\nTSLA\nAAPL\n";
    let tickers = parse_tickers(data).unwrap();

    let mut set = TickerSet::new();
    for ticker in tickers {
        set.insert(ticker.0);
    }

    assert_eq!(set.len(), 3);
    assert!(set.contains("AAPL"));
    assert!(set.contains("MSFT"));
    assert!(set.contains("TSLA"));
}

#[test]
fn test_tickers_error_display() {
    let error = TickersError::FileNotFound;
    assert_eq!(error.to_string(), "Tickers file not found");

    let error = TickersError::EmptyFile;
    assert_eq!(error.to_string(), "Tickers file is empty");

    let error = TickersError::IoError("permission denied".to_string());
    assert_eq!(error.to_string(), "IO error: permission denied");
}
