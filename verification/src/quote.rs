//! Stock quotes and their text form on the wire: `ticker|price|volume|timestamp_ms`.
//!
//! The price is a floating-point number, which this library does not
//! handle itself: a quote is generic over the type of its price, the
//! caller supplies the price's text when a quote is written, and the
//! outcome of reading the price field when a line is read.
use vstd::prelude::*;

use crate::text;
use crate::text::{chars_of, parse_unsigned_range, push_decimal, split_ranges, substring, trim_range};

verus! {

broadcast use vstd::string::group_string_axioms;

/// The separator between the fields of a quote line.
pub open spec fn field_separator() -> char {
    '|'
}

/// The number of fields in a quote line.
pub const FIELD_COUNT: usize = 4;

/// Errors that come from reading a quote line.
#[derive(Debug, PartialEq)]
pub enum ParseQuoteError {
    /// The line does not have exactly four fields.
    InvalidFieldCount { expected: usize, actual: usize },
    /// The ticker field is empty or holds only whitespace.
    EmptyTicker,
    /// The price field is not a number.
    InvalidPrice { value: String },
    /// The volume field is not a `u32`.
    InvalidVolume { value: String },
    /// The timestamp field is not a `u64`.
    InvalidTimestamp { value: String },
}

/// A [`ParseQuoteError`] with its texts taken as character sequences.
pub enum ParseQuoteErrorView {
    InvalidFieldCount { expected: nat, actual: nat },
    EmptyTicker,
    InvalidPrice { value: Seq<char> },
    InvalidVolume { value: Seq<char> },
    InvalidTimestamp { value: Seq<char> },
}

impl View for ParseQuoteError {
    type V = ParseQuoteErrorView;

    open spec fn view(&self) -> ParseQuoteErrorView {
        match self {
            ParseQuoteError::InvalidFieldCount { expected, actual } =>
                ParseQuoteErrorView::InvalidFieldCount { expected: *expected as nat, actual: *actual as nat },
            ParseQuoteError::EmptyTicker => ParseQuoteErrorView::EmptyTicker,
            ParseQuoteError::InvalidPrice { value } => ParseQuoteErrorView::InvalidPrice { value: value@ },
            ParseQuoteError::InvalidVolume { value } => ParseQuoteErrorView::InvalidVolume { value: value@ },
            ParseQuoteError::InvalidTimestamp { value } => ParseQuoteErrorView::InvalidTimestamp {
                value: value@,
            },
        }
    }
}

/// The human-readable message of a quote error.
pub open spec fn quote_error_message(e: ParseQuoteErrorView) -> Seq<char> {
    match e {
        ParseQuoteErrorView::InvalidFieldCount { expected, actual } => "Expected "@ + text::decimal(expected)
            + " fields separated by '|', got "@ + text::decimal(actual),
        ParseQuoteErrorView::InvalidPrice { value } => "Invalid price format: '"@ + value
            + "' (expected number)"@,
        ParseQuoteErrorView::InvalidVolume { value } => "Invalid volume format: '"@ + value
            + "' (expected unsigned integer)"@,
        ParseQuoteErrorView::InvalidTimestamp { value } => "Invalid timestamp format: '"@ + value
            + "' (expected unsigned integer)"@,
        ParseQuoteErrorView::EmptyTicker => "The ticker cannot be empty"@,
    }
}

impl ParseQuoteError {
    /// The human-readable message of this error.
    pub fn to_string(&self) -> (res: String)
        ensures
            res@ == quote_error_message(self@),
    {
        match self {
            ParseQuoteError::InvalidFieldCount { expected, actual } => {
                let mut res = String::from_str("Expected ");
                push_decimal(&mut res, *expected as u64);
                res.append(" fields separated by '|', got ");
                push_decimal(&mut res, *actual as u64);
                res
            },
            ParseQuoteError::InvalidPrice { value } => {
                let mut res = String::from_str("Invalid price format: '");
                res.append(value.as_str());
                res.append("' (expected number)");
                res
            },
            ParseQuoteError::InvalidVolume { value } => {
                let mut res = String::from_str("Invalid volume format: '");
                res.append(value.as_str());
                res.append("' (expected unsigned integer)");
                res
            },
            ParseQuoteError::InvalidTimestamp { value } => {
                let mut res = String::from_str("Invalid timestamp format: '");
                res.append(value.as_str());
                res.append("' (expected unsigned integer)");
                res
            },
            ParseQuoteError::EmptyTicker => String::from_str("The ticker cannot be empty"),
        }
    }
}

/// A ticker (the symbol of an asset), such as `AAPL` or `BRK.B`.
#[derive(Debug, Clone, PartialEq)]
pub struct Ticker(pub String);

/// A traded volume, in units.
#[derive(Debug, Clone, PartialEq)]
pub struct Volume(pub u32);

/// A Unix time in milliseconds.
#[derive(Debug, Clone, PartialEq)]
pub struct Timestamp(pub u64);

impl Ticker {
    /// The ticker's text.
    pub fn to_string(&self) -> (res: String)
        ensures
            res@ == self.0@,
    {
        self.0.clone()
    }
}

impl Volume {
    /// The volume in decimal.
    pub fn to_string(&self) -> (res: String)
        ensures
            res@ == text::decimal(self.0 as nat),
    {
        let mut res = String::new();
        push_decimal(&mut res, self.0 as u64);
        res
    }
}

impl Timestamp {
    /// The timestamp in decimal.
    pub fn to_string(&self) -> (res: String)
        ensures
            res@ == text::decimal(self.0 as nat),
    {
        let mut res = String::new();
        push_decimal(&mut res, self.0);
        res
    }
}

/// A stock quote, with a price of type `P`.
#[derive(Debug, Clone, PartialEq)]
pub struct StockQuote<P> {
    /// The asset's ticker, such as `AAPL` or `BRK.B`.
    pub ticker: Ticker,
    /// The asset's price.
    pub price: P,
    /// The traded volume.
    pub volume: Volume,
    /// When the quote was taken, in Unix milliseconds.
    pub timestamp_ms: Timestamp,
}

/// The wire line of a quote whose fields read `ticker`, `price`, `volume`
/// and `timestamp`.
pub open spec fn wire_line(ticker: Seq<char>, price: Seq<char>, volume: nat, timestamp: nat) -> Seq<char> {
    ticker + seq![field_separator()] + price + seq![field_separator()] + text::decimal(volume)
        + seq![field_separator()] + text::decimal(timestamp)
}

/// The four fields of a quote line, as text: the ticker already trimmed,
/// the other three as they stand on the line.
#[derive(Debug, Clone, PartialEq)]
pub struct WireFields {
    pub ticker: String,
    pub price: String,
    pub volume: String,
    pub timestamp: String,
}

/// [`WireFields`] as character sequences.
pub struct WireFieldsView {
    pub ticker: Seq<char>,
    pub price: Seq<char>,
    pub volume: Seq<char>,
    pub timestamp: Seq<char>,
}

impl View for WireFields {
    type V = WireFieldsView;

    open spec fn view(&self) -> WireFieldsView {
        WireFieldsView {
            ticker: self.ticker@,
            price: self.price@,
            volume: self.volume@,
            timestamp: self.timestamp@,
        }
    }
}

/// The fields of `line`: it must split on `|` into exactly four pieces,
/// and its first piece, trimmed, must not be empty.
pub open spec fn wire_fields(line: Seq<char>) -> Result<WireFieldsView, ParseQuoteErrorView> {
    let parts = text::split(line, field_separator());
    if parts.len() != 4 {
        Err(ParseQuoteErrorView::InvalidFieldCount { expected: 4, actual: parts.len() })
    } else if text::trim(parts[0]).len() == 0 {
        Err(ParseQuoteErrorView::EmptyTicker)
    } else {
        Ok(WireFieldsView { ticker: text::trim(parts[0]), price: parts[1], volume: parts[2], timestamp: parts[3] })
    }
}

/// Splits a quote line into its fields.
pub fn split_wire_line(line: &str) -> (res: Result<WireFields, ParseQuoteError>)
    ensures
        match res {
            Ok(fields) => wire_fields(line@) == Ok::<WireFieldsView, ParseQuoteErrorView>(fields@),
            Err(e) => wire_fields(line@) == Err::<WireFieldsView, ParseQuoteErrorView>(e@),
        },
{
    let chars = chars_of(line);
    let len = chars.len();
    assert(chars@.subrange(0, len as int) =~= line@);
    let ranges = split_ranges(&chars, 0, len, '|');
    if ranges.len() != FIELD_COUNT {
        return Err(ParseQuoteError::InvalidFieldCount { expected: FIELD_COUNT, actual: ranges.len() });
    }
    let (t0, t1) = trim_range(&chars, ranges[0].0, ranges[0].1);
    if t0 == t1 {
        return Err(ParseQuoteError::EmptyTicker);
    }
    let fields = WireFields {
        ticker: substring(line, t0, t1),
        price: substring(line, ranges[1].0, ranges[1].1),
        volume: substring(line, ranges[2].0, ranges[2].1),
        timestamp: substring(line, ranges[3].0, ranges[3].1),
    };
    assert(fields@ == wire_fields(line@)->Ok_0);
    Ok(fields)
}

impl<P> StockQuote<P> {
    /// Builds a quote from its parts.
    pub fn new(ticker: Ticker, price: P, volume: Volume, timestamp_ms: Timestamp) -> (res: Self)
        ensures
            res.ticker == ticker,
            res.price == price,
            res.volume == volume,
            res.timestamp_ms == timestamp_ms,
    {
        StockQuote { ticker, price, volume, timestamp_ms }
    }

    /// The quote's wire line, `ticker|price|volume|timestamp_ms`, where
    /// `price_text` is the text of the quote's price.
    pub fn to_wire_line(&self, price_text: &str) -> (res: String)
        ensures
            res@ == wire_line(self.ticker.0@, price_text@, self.volume.0 as nat, self.timestamp_ms.0 as nat),
    {
        let mut res = self.ticker.0.clone();
        proof {
            reveal_strlit("|");
        }
        res.append("|");
        res.append(price_text);
        res.append("|");
        push_decimal(&mut res, self.volume.0 as u64);
        res.append("|");
        push_decimal(&mut res, self.timestamp_ms.0);
        assert(res@ =~= wire_line(self.ticker.0@, price_text@, self.volume.0 as nat, self.timestamp_ms.0 as nat));
        res
    }

    /// Reads a quote from its wire line `ticker|price|volume|timestamp_ms`,
    /// reading the price field with `parse_price` (which gives `None` for a
    /// text that is not a price). Refusals come in the order of
    /// [`split_wire_line`], then the price, the volume and the timestamp.
    pub fn from_wire_line<F: Fn(&str) -> Option<P>>(line: &str, parse_price: F) -> (res: Result<Self, ParseQuoteError>)
        requires
            forall|s: &str| parse_price.requires((s,)),
        ensures
            match wire_fields(line@) {
                Err(e) => res matches Err(x) && x@ == e,
                Ok(fields) => exists|s: &str, price: Option<P>|
                    s@ == fields.price && parse_price.ensures((s,), price) && match price {
                        None => res matches Err(x) && x@ == ParseQuoteErrorView::InvalidPrice {
                            value: fields.price,
                        },
                        Some(p) => match (
                            text::parse_unsigned(fields.volume, u32::MAX as nat),
                            text::parse_unsigned(fields.timestamp, u64::MAX as nat),
                        ) {
                            (None, _) => res matches Err(x) && x@ == ParseQuoteErrorView::InvalidVolume {
                                value: fields.volume,
                            },
                            (Some(_), None) => res matches Err(x) && x@
                                == ParseQuoteErrorView::InvalidTimestamp { value: fields.timestamp },
                            (Some(v), Some(t)) => res matches Ok(q) && q.ticker.0@ == fields.ticker
                                && q.price == p && q.volume.0 == v && q.timestamp_ms.0 == t,
                        },
                    },
            },
    {
        let fields = match split_wire_line(line) {
            Ok(fields) => fields,
            Err(e) => return Err(e),
        };
        let price = parse_price(fields.price.as_str());
        Self::from_wire_fields(fields, price)
    }

    /// Builds a quote from the fields of a quote line, given what reading
    /// the price field gave (`None` where it is not a price).
    pub fn from_wire_fields(fields: WireFields, price: Option<P>) -> (res: Result<Self, ParseQuoteError>)
        ensures
            match price {
                None => res matches Err(e) && e@ == ParseQuoteErrorView::InvalidPrice { value: fields.price@ },
                Some(p) => match (
                    text::parse_unsigned(fields.volume@, u32::MAX as nat),
                    text::parse_unsigned(fields.timestamp@, u64::MAX as nat),
                ) {
                    (None, _) => res matches Err(e) && e@ == ParseQuoteErrorView::InvalidVolume {
                        value: fields.volume@,
                    },
                    (Some(_), None) => res matches Err(e) && e@ == ParseQuoteErrorView::InvalidTimestamp {
                        value: fields.timestamp@,
                    },
                    (Some(v), Some(t)) => res matches Ok(q) && q.ticker.0@ == fields.ticker@ && q.price == p
                        && q.volume.0 == v && q.timestamp_ms.0 == t,
                },
            },
    {
        let price = match price {
            Some(p) => p,
            None => return Err(ParseQuoteError::InvalidPrice { value: fields.price }),
        };
        let volume_chars = chars_of(fields.volume.as_str());
        let vlen = volume_chars.len();
        assert(volume_chars@.subrange(0, vlen as int) =~= fields.volume@);
        let volume = match parse_unsigned_range(&volume_chars, 0, vlen, u32::MAX as u64) {
            Some(v) => v as u32,
            None => return Err(ParseQuoteError::InvalidVolume { value: fields.volume }),
        };
        let ts_chars = chars_of(fields.timestamp.as_str());
        let tlen = ts_chars.len();
        assert(ts_chars@.subrange(0, tlen as int) =~= fields.timestamp@);
        let timestamp = match parse_unsigned_range(&ts_chars, 0, tlen, u64::MAX) {
            Some(t) => t,
            None => return Err(ParseQuoteError::InvalidTimestamp { value: fields.timestamp }),
        };
        Ok(StockQuote {
            ticker: Ticker(fields.ticker),
            price,
            volume: Volume(volume),
            timestamp_ms: Timestamp(timestamp),
        })
    }
}

/// Reading back a written quote line gives the quote's fields: the ticker,
/// the price text, and numerals that read back as the volume and the
/// timestamp. This holds when the ticker is not empty, carries no
/// surrounding whitespace and no `|`, and the price text carries no `|`.
pub proof fn lemma_wire_line_roundtrip(ticker: Seq<char>, price: Seq<char>, volume: u32, timestamp: u64)
    requires
        ticker.len() > 0,
        text::trim(ticker) == ticker,
        !ticker.contains(field_separator()),
        !price.contains(field_separator()),
    ensures
        wire_fields(wire_line(ticker, price, volume as nat, timestamp as nat)) == Ok::<
            WireFieldsView,
            ParseQuoteErrorView,
        >(
            WireFieldsView {
                ticker,
                price,
                volume: text::decimal(volume as nat),
                timestamp: text::decimal(timestamp as nat),
            },
        ),
        text::parse_unsigned(text::decimal(volume as nat), u32::MAX as nat) == Some(volume as nat),
        text::parse_unsigned(text::decimal(timestamp as nat), u64::MAX as nat) == Some(timestamp as nat),
{
    let sep = field_separator();
    let dv = text::decimal(volume as nat);
    let dt = text::decimal(timestamp as nat);
    text::lemma_decimal_excludes(volume as nat, sep);
    text::lemma_decimal_excludes(timestamp as nat, sep);
    text::lemma_split_single(ticker, sep);
    text::lemma_split_append(ticker, sep, price);
    text::lemma_split_append(ticker + seq![sep] + price, sep, dv);
    text::lemma_split_append(ticker + seq![sep] + price + seq![sep] + dv, sep, dt);
    text::lemma_parse_decimal(volume as nat, u32::MAX as nat);
    text::lemma_parse_decimal(timestamp as nat, u64::MAX as nat);
    let parts = text::split(wire_line(ticker, price, volume as nat, timestamp as nat), sep);
    assert(parts =~= seq![ticker, price, dv, dt]);
}

/// The ticker read from a quote line is not empty, carries no surrounding
/// whitespace, and holds no `|`; no field holds a `|`.
pub proof fn lemma_wire_fields_shape(line: Seq<char>)
    ensures
        wire_fields(line) matches Ok(fields) ==> {
            &&& fields.ticker.len() > 0
            &&& text::trim(fields.ticker) == fields.ticker
            &&& !fields.ticker.contains(field_separator())
            &&& !fields.price.contains(field_separator())
            &&& !fields.volume.contains(field_separator())
            &&& !fields.timestamp.contains(field_separator())
        },
{
    let parts = text::split(line, field_separator());
    if parts.len() == 4 {
        text::lemma_split_pieces_exclude(line, field_separator(), 0);
        text::lemma_split_pieces_exclude(line, field_separator(), 1);
        text::lemma_split_pieces_exclude(line, field_separator(), 2);
        text::lemma_split_pieces_exclude(line, field_separator(), 3);
        text::lemma_trim_excludes(parts[0], field_separator());
        text::lemma_trim_idempotent(parts[0]);
    }
}

} // verus!
