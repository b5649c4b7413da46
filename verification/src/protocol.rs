//! The subscription protocol: a client asks for quotes with the line
//! `STREAM <udp_addr> <ticker1,ticker2,...>` and the server answers `OK`
//! or `ERR <reason>`.
//!
//! Reading a command goes in two steps around the one thing this library
//! does not do itself, parsing the UDP address: [`split_stream_command`]
//! checks the line's shape and picks out the address and ticker texts, and
//! [`finish_stream_command`] takes what parsing the address gave and checks
//! the tickers against the known ones.
use vstd::prelude::*;

use crate::quote::Ticker;
use crate::text;
use crate::text::{any_contains_char, chars_of, push_joined, is_whitespace_char, nonblank_trimmed_pieces, split_ranges, substring, trim_range};
use crate::tickers::{ticker_texts, TickerSet};

verus! {

broadcast use vstd::string::group_string_axioms;

/// The word a subscription command starts with.
pub open spec fn command_prefix() -> Seq<char> {
    seq!['S', 'T', 'R', 'E', 'A', 'M']
}

/// Errors that come from reading a subscription command.
#[derive(Debug, PartialEq)]
pub enum ParseStreamError {
    /// The line is not `STREAM <addr> <tickers>`, or a ticker holds a space.
    InvalidCommand,
    /// The address is not a socket address.
    InvalidUdpAddress,
    /// The ticker list names no ticker.
    EmptyTickerList,
    /// A ticker is not among the known ones.
    UnknownTicker { ticker: String },
}

/// A [`ParseStreamError`] with its text taken as a character sequence.
pub enum ParseStreamErrorView {
    InvalidCommand,
    InvalidUdpAddress,
    EmptyTickerList,
    UnknownTicker { ticker: Seq<char> },
}

impl View for ParseStreamError {
    type V = ParseStreamErrorView;

    open spec fn view(&self) -> ParseStreamErrorView {
        match self {
            ParseStreamError::InvalidCommand => ParseStreamErrorView::InvalidCommand,
            ParseStreamError::InvalidUdpAddress => ParseStreamErrorView::InvalidUdpAddress,
            ParseStreamError::EmptyTickerList => ParseStreamErrorView::EmptyTickerList,
            ParseStreamError::UnknownTicker { ticker } => ParseStreamErrorView::UnknownTicker {
                ticker: ticker@,
            },
        }
    }
}

/// The human-readable message of a command error.
pub open spec fn stream_error_message(e: ParseStreamErrorView) -> Seq<char> {
    match e {
        ParseStreamErrorView::InvalidCommand => "Invalid command format"@,
        ParseStreamErrorView::InvalidUdpAddress => "Invalid UDP address format"@,
        ParseStreamErrorView::EmptyTickerList => "Ticker list is empty"@,
        ParseStreamErrorView::UnknownTicker { ticker } => "Unknown ticker: "@ + ticker,
    }
}

impl ParseStreamError {
    /// The human-readable message of this error.
    pub fn to_string(&self) -> (res: String)
        ensures
            res@ == stream_error_message(self@),
    {
        match self {
            ParseStreamError::InvalidCommand => String::from_str("Invalid command format"),
            ParseStreamError::InvalidUdpAddress => String::from_str("Invalid UDP address format"),
            ParseStreamError::EmptyTickerList => String::from_str("Ticker list is empty"),
            ParseStreamError::UnknownTicker { ticker } => {
                let mut res = String::from_str("Unknown ticker: ");
                res.append(ticker.as_str());
                res
            },
        }
    }
}

/// An accepted subscription: where to send quotes, and for which tickers.
#[derive(Debug, Clone, PartialEq)]
pub struct StreamCommand<A> {
    /// The UDP address the client awaits quotes on.
    pub udp_addr: A,
    /// The tickers the client subscribes to, in the order given.
    pub tickers: Vec<Ticker>,
}

/// The address and ticker texts of a well-shaped command, both trimmed.
#[derive(Debug, Clone, PartialEq)]
pub struct StreamParts {
    pub udp_addr: String,
    pub tickers: String,
}

/// [`StreamParts`] as character sequences.
pub struct StreamPartsView {
    pub udp_addr: Seq<char>,
    pub tickers: Seq<char>,
}

impl View for StreamParts {
    type V = StreamPartsView;

    open spec fn view(&self) -> StreamPartsView {
        StreamPartsView { udp_addr: self.udp_addr@, tickers: self.tickers@ }
    }
}

/// The line without leading whitespace and without trailing newlines.
pub open spec fn command_body(line: Seq<char>) -> Seq<char> {
    text::trim_end_matches(text::trim_start(line), '\n')
}

/// The tickers that a ticker list names: its comma-separated pieces,
/// trimmed, without the blank ones.
pub open spec fn ticker_names(tickers: Seq<char>) -> Seq<Seq<char>> {
    text::nonblank_trimmed(text::split(tickers, ','))
}

/// How a command line is taken apart: as [`body_parts`] takes apart its
/// [`command_body`].
pub open spec fn stream_parts(line: Seq<char>) -> Result<StreamPartsView, ParseStreamErrorView> {
    body_parts(command_body(line))
}

/// How a command body is taken apart. The body must start with `STREAM`
/// and hold at least two spaces; the address is the text between the first
/// two spaces and the ticker list all that follows the second, each
/// trimmed. The ticker list must name a ticker, and no named ticker may
/// hold a space.
pub open spec fn body_parts(body: Seq<char>) -> Result<StreamPartsView, ParseStreamErrorView> {
    let words = text::split(body, ' ');
    if !(body.len() >= command_prefix().len() && body.take(command_prefix().len() as int)
        == command_prefix()) {
        Err(ParseStreamErrorView::InvalidCommand)
    } else if words.len() < 3 {
        Err(ParseStreamErrorView::InvalidCommand)
    } else {
        let tickers = text::trim(body.skip((words[0].len() + words[1].len() + 2) as int));
        let names = ticker_names(tickers);
        if tickers.len() == 0 || names.len() == 0 {
            Err(ParseStreamErrorView::EmptyTickerList)
        } else if exists|j: int| 0 <= j < names.len() && (#[trigger] names[j]).contains(' ') {
            Err(ParseStreamErrorView::InvalidCommand)
        } else {
            Ok(StreamPartsView { udp_addr: text::trim(words[1]), tickers })
        }
    }
}

/// The first of `names` that is not in `available`, if any.
pub open spec fn first_unknown(names: Seq<Seq<char>>, available: Set<Seq<char>>) -> Option<Seq<char>>
    decreases names.len(),
{
    if names.len() == 0 {
        None
    } else if !available.contains(names[0]) {
        Some(names[0])
    } else {
        first_unknown(names.drop_first(), available)
    }
}

/// The tickers of a ticker list, checked against the available ones: the
/// list must name a ticker, and every named ticker must be available; the
/// first one that is not is reported.
pub open spec fn ticker_list(tickers: Seq<char>, available: Set<Seq<char>>) -> Result<
    Seq<Seq<char>>,
    ParseStreamErrorView,
> {
    let names = ticker_names(tickers);
    if names.len() == 0 {
        Err(ParseStreamErrorView::EmptyTickerList)
    } else {
        match first_unknown(names, available) {
            Some(t) => Err(ParseStreamErrorView::UnknownTicker { ticker: t }),
            None => Ok(names),
        }
    }
}

/// Checks the shape of a command line and picks out its address and ticker
/// texts, as [`stream_parts`] says.
pub fn split_stream_command(line: &str) -> (res: Result<StreamParts, ParseStreamError>)
    ensures
        match res {
            Ok(parts) => stream_parts(line@) == Ok::<StreamPartsView, ParseStreamErrorView>(parts@),
            Err(e) => stream_parts(line@) == Err::<StreamPartsView, ParseStreamErrorView>(e@),
        },
{
    let chars = chars_of(line);
    let len = chars.len();
    let mut a: usize = 0;
    assert(chars@.subrange(0, len as int) =~= chars@);
    while a < len && is_whitespace_char(chars[a])
        invariant
            a <= len == chars@.len(),
            chars@ == line@,
            text::trim_start(line@) == text::trim_start(chars@.subrange(a as int, len as int)),
        decreases len - a,
    {
        assert(chars@.subrange(a as int, len as int).drop_first() =~= chars@.subrange(a + 1, len as int));
        a = a + 1;
    }
    let mut b: usize = len;
    while b > a && chars[b - 1] == '\n'
        invariant
            a <= b <= len == chars@.len(),
            chars@ == line@,
            text::trim_start(line@) == chars@.subrange(a as int, len as int),
            command_body(line@) == text::trim_end_matches(chars@.subrange(a as int, b as int), '\n'),
        decreases b - a,
    {
        assert(chars@.subrange(a as int, b as int).drop_last() =~= chars@.subrange(a as int, b - 1));
        b = b - 1;
    }
    let ghost body = chars@.subrange(a as int, b as int);
    assert(command_body(line@) == body);
    if b - a < 6 || chars[a] != 'S' || chars[a + 1] != 'T' || chars[a + 2] != 'R' || chars[a + 3] != 'E'
        || chars[a + 4] != 'A' || chars[a + 5] != 'M' {
        proof {
            if body.len() >= 6 && body.take(6) == command_prefix() {
                assert(body.take(6)[0] == 'S');
                assert(body.take(6)[1] == 'T');
                assert(body.take(6)[2] == 'R');
                assert(body.take(6)[3] == 'E');
                assert(body.take(6)[4] == 'A');
                assert(body.take(6)[5] == 'M');
            }
        }
        return Err(ParseStreamError::InvalidCommand);
    }
    assert(body.take(6) =~= command_prefix());
    let words = split_ranges(&chars, a, b, ' ');
    if words.len() < 3 {
        return Err(ParseStreamError::InvalidCommand);
    }
    let ghost w = text::split(body, ' ');
    assert(words@[1].0 == words@[0].1 + 1 && words@[2].0 == words@[1].1 + 1);
    assert(w[0].len() + w[1].len() + 2 == words[2].0 - a);
    assert(body.skip((w[0].len() + w[1].len() + 2) as int) =~= chars@.subrange(words[2].0 as int, b as int));
    let (u0, u1) = trim_range(&chars, words[1].0, words[1].1);
    let (t0, t1) = trim_range(&chars, words[2].0, b);
    if t0 == t1 {
        return Err(ParseStreamError::EmptyTickerList);
    }
    let names = nonblank_trimmed_pieces(line, &chars, t0, t1, ',');
    if names.len() == 0 {
        return Err(ParseStreamError::EmptyTickerList);
    }
    let ghost tickers = chars@.subrange(t0 as int, t1 as int);
    if any_contains_char(&names, ' ') {
        proof {
            let j = choose|j: int| 0 <= j < names@.len() && (#[trigger] names@[j])@.contains(' ');
            assert(ticker_names(tickers)[j] == names@[j]@);
        }
        return Err(ParseStreamError::InvalidCommand);
    }
    assert forall|j: int| 0 <= j < ticker_names(tickers).len() implies !(#[trigger] ticker_names(tickers)[j]).contains(' ') by {
        assert(ticker_names(tickers)[j] == names@[j]@);
    }
    let parts = StreamParts { udp_addr: substring(line, u0, u1), tickers: substring(line, t0, t1) };
    Ok(parts)
}

/// Reads the tickers of a ticker list and checks each against the
/// available ones, as [`ticker_list`] says.
pub fn parse_ticker_list(tickers_str: &str, available_tickers: &TickerSet) -> (res: Result<
    Vec<Ticker>,
    ParseStreamError,
>)
    ensures
        match res {
            Ok(tickers) => ticker_list(tickers_str@, available_tickers@) == Ok::<
                Seq<Seq<char>>,
                ParseStreamErrorView,
            >(ticker_texts(tickers@)),
            Err(e) => ticker_list(tickers_str@, available_tickers@) == Err::<
                Seq<Seq<char>>,
                ParseStreamErrorView,
            >(e@),
        },
{
    let chars = chars_of(tickers_str);
    let len = chars.len();
    assert(chars@.subrange(0, len as int) =~= tickers_str@);
    let raw = nonblank_trimmed_pieces(tickers_str, &chars, 0, len, ',');
    if raw.len() == 0 {
        return Err(ParseStreamError::EmptyTickerList);
    }
    let ghost names = ticker_names(tickers_str@);
    let mut result: Vec<Ticker> = Vec::new();
    let n = raw.len();
    assert(names.skip(0) =~= names);
    for i in 0..n
        invariant
            n == raw@.len(),
            raw@.map_values(|r: String| r@) == names,
            names == ticker_names(tickers_str@),
            first_unknown(names, available_tickers@) == first_unknown(names.skip(i as int), available_tickers@),
            ticker_texts(result@) == names.take(i as int),
    {
        let name = raw[i].clone();
        assert(names[i as int] == raw@[i as int]@);
        assert(names.skip(i as int)[0] == names[i as int]);
        if !available_tickers.contains(name.as_str()) {
            return Err(ParseStreamError::UnknownTicker { ticker: name });
        }
        assert(names.skip(i as int).drop_first() =~= names.skip(i + 1));
        let ghost before = result@;
        result.push(Ticker(name));
        assert(ticker_texts(result@) =~= ticker_texts(before).push(names[i as int]));
        assert(names.take(i + 1) =~= names.take(i as int).push(names[i as int]));
    }
    assert(names.skip(n as int) =~= Seq::<Seq<char>>::empty());
    assert(names.take(n as int) =~= names);
    Ok(result)
}

/// Finishes reading a command from its parts, given what parsing the
/// address gave (`None` where it is not a socket address): an invalid
/// address is reported before anything about the tickers.
pub fn finish_stream_command<A>(parts: StreamParts, udp_addr: Option<A>, available_tickers: &TickerSet) -> (res:
    Result<StreamCommand<A>, ParseStreamError>)
    ensures
        match udp_addr {
            None => res matches Err(e) && e@ == ParseStreamErrorView::InvalidUdpAddress,
            Some(addr) => match ticker_list(parts.tickers@, available_tickers@) {
                Ok(names) => res matches Ok(command) && command.udp_addr == addr && ticker_texts(
                    command.tickers@,
                ) == names,
                Err(err) => res matches Err(e) && e@ == err,
            },
        },
{
    let addr = match udp_addr {
        Some(addr) => addr,
        None => return Err(ParseStreamError::InvalidUdpAddress),
    };
    match parse_ticker_list(parts.tickers.as_str(), available_tickers) {
        Ok(tickers) => Ok(StreamCommand { udp_addr: addr, tickers }),
        Err(e) => Err(e),
    }
}

/// The answer to an accepted command.
pub fn ok_response() -> (res: String)
    ensures
        res@ == "OK\n"@,
{
    String::from_str("OK\n")
}

/// The answer to a malformed command.
pub fn err_invalid_command() -> (res: String)
    ensures
        res@ == "ERR invalid command\n"@,
{
    String::from_str("ERR invalid command\n")
}

/// The answer to a command whose address is not a socket address.
pub fn err_invalid_udp_address() -> (res: String)
    ensures
        res@ == "ERR invalid udp address\n"@,
{
    String::from_str("ERR invalid udp address\n")
}

/// The answer to a command that names no ticker.
pub fn err_empty_ticker_list() -> (res: String)
    ensures
        res@ == "ERR empty ticker list\n"@,
{
    String::from_str("ERR empty ticker list\n")
}

/// The answer to a command that names the unknown ticker `ticker`.
pub fn err_unknown_ticker(ticker: &str) -> (res: String)
    ensures
        res@ == "ERR unknown ticker: "@ + ticker@ + "\n"@,
{
    let mut res = String::from_str("ERR unknown ticker: ");
    res.append(ticker);
    res.append("\n");
    res
}

/// The answer to a command refused with `e`.
pub open spec fn error_response(e: ParseStreamErrorView) -> Seq<char> {
    match e {
        ParseStreamErrorView::InvalidCommand => "ERR invalid command\n"@,
        ParseStreamErrorView::InvalidUdpAddress => "ERR invalid udp address\n"@,
        ParseStreamErrorView::EmptyTickerList => "ERR empty ticker list\n"@,
        ParseStreamErrorView::UnknownTicker { ticker } => "ERR unknown ticker: "@ + ticker + "\n"@,
    }
}

/// The answer to a command refused with `error`.
pub fn error_to_response(error: &ParseStreamError) -> (res: String)
    ensures
        res@ == error_response(error@),
{
    match error {
        ParseStreamError::InvalidCommand => err_invalid_command(),
        ParseStreamError::InvalidUdpAddress => err_invalid_udp_address(),
        ParseStreamError::EmptyTickerList => err_empty_ticker_list(),
        ParseStreamError::UnknownTicker { ticker } => err_unknown_ticker(ticker.as_str()),
    }
}

/// The answer to the outcome of reading a command.
pub fn response_for<A>(outcome: &Result<StreamCommand<A>, ParseStreamError>) -> (res: String)
    ensures
        match outcome {
            Ok(_) => res@ == "OK\n"@,
            Err(e) => res@ == error_response(e@),
        },
{
    match outcome {
        Ok(_) => ok_response(),
        Err(e) => error_to_response(e),
    }
}

/// The command line that subscribes `udp_addr` to `tickers`:
/// `STREAM <udp_addr> <ticker1,ticker2,...>` and a newline.
pub open spec fn command_line(udp_addr: Seq<char>, tickers: Seq<Seq<char>>) -> Seq<char> {
    command_prefix() + seq![' '] + udp_addr + seq![' '] + text::join(tickers, ',') + seq!['\n']
}

/// Writes the command line that subscribes `udp_addr` to `tickers`.
pub fn stream_command_line(udp_addr: &str, tickers: &Vec<String>) -> (res: String)
    ensures
        res@ == command_line(udp_addr@, tickers@.map_values(|t: String| t@)),
{
    proof {
        reveal_strlit("STREAM ");
        reveal_strlit(" ");
        reveal_strlit(",");
        reveal_strlit("\n");
    }
    let mut res = String::from_str("STREAM ");
    res.append(udp_addr);
    res.append(" ");
    push_joined(&mut res, tickers, ",");
    res.append("\n");
    assert(res@ =~= command_line(udp_addr@, tickers@.map_values(|t: String| t@)));
    res
}

/// Tells whether a server's answer, trimmed, is `OK`.
pub fn is_ok_response(response: &str) -> (res: bool)
    ensures
        res == (text::trim(response@) == "OK"@),
{
    proof {
        reveal_strlit("OK");
    }
    let chars = chars_of(response);
    let len = chars.len();
    assert(chars@.subrange(0, len as int) =~= response@);
    let (a, b) = trim_range(&chars, 0, len);
    let ghost t = chars@.subrange(a as int, b as int);
    if b - a == 2 && chars[a] == 'O' && chars[a + 1] == 'K' {
        assert(t =~= "OK"@);
        true
    } else {
        proof {
            assert("OK"@ =~= seq!['O', 'K']);
            if t == "OK"@ {
                assert(t.len() == 2 && t[0] == 'O' && t[1] == 'K');
                assert(chars[a as int] == 'O' && chars[a + 1] == 'K');
            }
        }
        false
    }
}

/// `first_unknown` finds nothing exactly when every name is available,
/// and what it finds is a name that is not available.
pub proof fn lemma_first_unknown(names: Seq<Seq<char>>, available: Set<Seq<char>>)
    ensures
        first_unknown(names, available) is None <==> forall|i: int|
            0 <= i < names.len() ==> available.contains(#[trigger] names[i]),
        first_unknown(names, available) matches Some(t) ==> names.contains(t) && !available.contains(t),
    decreases names.len(),
{
    if names.len() > 0 {
        lemma_first_unknown(names.drop_first(), available);
        if available.contains(names[0]) {
            assert forall|i: int| 0 <= i < names.len() && (forall|j: int| 0 <= j < names.drop_first().len() ==> available.contains(#[trigger] names.drop_first()[j])) implies available.contains(#[trigger] names[i]) by {
                if i > 0 {
                    assert(names.drop_first()[i - 1] == names[i]);
                }
            }
            if let Some(t) = first_unknown(names, available) {
                let k = choose|k: int| 0 <= k < names.drop_first().len() && names.drop_first()[k] == t;
                assert(names[k + 1] == t);
            }
            if !(forall|i: int| 0 <= i < names.drop_first().len() ==> available.contains(#[trigger] names.drop_first()[i])) {
                let i = choose|i: int| 0 <= i < names.drop_first().len() && !available.contains(#[trigger] names.drop_first()[i]);
                assert(names[i + 1] == names.drop_first()[i]);
            }
        } else {
            assert(names[0] == names[0]);
        }
    }
}

/// Every ticker of an accepted ticker list is available, is not blank,
/// carries no surrounding whitespace, and holds no comma; and a list is
/// refused for an unknown ticker only when one of its tickers is not
/// available.
pub proof fn lemma_accepted_tickers_are_known(tickers: Seq<char>, available: Set<Seq<char>>)
    ensures
        ticker_list(tickers, available) matches Ok(names) ==> names.len() > 0 && forall|i: int|
            0 <= i < names.len() ==> {
                &&& available.contains(#[trigger] names[i])
                &&& names[i].len() > 0
                &&& text::trim(names[i]) == names[i]
                &&& !names[i].contains(',')
            },
        ticker_list(tickers, available) matches Err(ParseStreamErrorView::UnknownTicker { ticker }) ==> {
            &&& ticker_names(tickers).contains(ticker)
            &&& !available.contains(ticker)
        },
{
    let names = ticker_names(tickers);
    lemma_first_unknown(names, available);
    assert forall|i: int| 0 <= i < names.len() implies {
        &&& (#[trigger] names[i]).len() > 0
        &&& text::trim(names[i]) == names[i]
        &&& !names[i].contains(',')
    } by {
        lemma_ticker_names_shape(tickers, i);
    }
}

/// A ticker name is a nonblank, trimmed comma-free piece of the list.
proof fn lemma_ticker_names_shape(tickers: Seq<char>, i: int)
    requires
        0 <= i < ticker_names(tickers).len(),
    ensures
        ticker_names(tickers)[i].len() > 0,
        text::trim(ticker_names(tickers)[i]) == ticker_names(tickers)[i],
        !ticker_names(tickers)[i].contains(','),
{
    let pieces = text::split(tickers, ',');
    text::lemma_nonblank_trimmed_from(pieces, i);
    let j = choose|j: int| 0 <= j < pieces.len() && ticker_names(tickers)[i] == text::trim(#[trigger] pieces[j]);
    text::lemma_split_pieces_exclude(tickers, ',', j);
    text::lemma_trim_excludes(pieces[j], ',');
    text::lemma_trim_idempotent(pieces[j]);
}

/// A command line written for an address and a list of tickers reads back
/// as that address and a ticker list that names exactly those tickers.
/// This holds when the address holds no space and carries no surrounding
/// whitespace, and the list is not empty and each ticker in it is not
/// empty, carries no surrounding whitespace and holds neither a comma nor
/// a space.
pub proof fn lemma_command_line_roundtrip(udp_addr: Seq<char>, tickers: Seq<Seq<char>>)
    requires
        !udp_addr.contains(' '),
        text::trim(udp_addr) == udp_addr,
        tickers.len() > 0,
        forall|i: int|
            0 <= i < tickers.len() ==> {
                &&& (#[trigger] tickers[i]).len() > 0
                &&& text::trim(tickers[i]) == tickers[i]
                &&& !tickers[i].contains(',')
                &&& !tickers[i].contains(' ')
            },
    ensures
        stream_parts(command_line(udp_addr, tickers)) == Ok::<StreamPartsView, ParseStreamErrorView>(
            StreamPartsView { udp_addr, tickers: text::join(tickers, ',') },
        ),
        ticker_names(text::join(tickers, ',')) == tickers,
{
    let joined = text::join(tickers, ',');
    let line = command_line(udp_addr, tickers);
    let prefix = command_prefix();
    let body = prefix + seq![' '] + udp_addr + seq![' '] + joined;
    // The joined list starts and ends with characters that are not whitespace.
    text::lemma_join_ends(tickers, ',');
    text::lemma_trimmed_ends(tickers[0]);
    text::lemma_trimmed_ends(tickers[tickers.len() - 1]);
    text::lemma_trimmed_ends(joined);
    // Taking the line apart.
    assert(line[0] == 'S');
    assert(text::trim_start(line) == line);
    assert(line.drop_last() =~= body);
    assert(body.last() == joined.last());
    assert(text::trim_end_matches(body, '\n') == body);
    assert(command_body(line) == body);
    assert(body.take(6) =~= prefix);
    assert(!prefix.contains(' ')) by {
        if prefix.contains(' ') {
            let k = choose|k: int| 0 <= k < prefix.len() && prefix[k] == ' ';
            assert(prefix[k] == ' ');
        }
    }
    text::lemma_join_excludes(tickers, ',', ' ');
    text::lemma_split_single(prefix, ' ');
    text::lemma_split_append(prefix, ' ', udp_addr);
    text::lemma_split_append(prefix + seq![' '] + udp_addr, ' ', joined);
    let words = text::split(body, ' ');
    assert(words =~= seq![prefix, udp_addr, joined]);
    assert(body.skip((words[0].len() + words[1].len() + 2) as int) =~= joined);
    // Reading the ticker list.
    assert forall|i: int| 0 <= i < tickers.len() implies !(#[trigger] tickers[i]).contains(',') by {}
    text::lemma_split_join(tickers, ',');
    text::lemma_nonblank_trimmed_identity(tickers);
    assert(ticker_names(joined) == tickers);
}

/// Reads a subscription command `STREAM <udp_addr> <ticker1,ticker2,...>`
/// and checks its tickers against `available_tickers`, parsing the address
/// text with `parse_udp_addr` (which gives `None` for a text that is not an
/// address). Refusals come in the order of [`split_stream_command`], then
/// an invalid address, then [`parse_ticker_list`].
pub fn parse_stream_command<A, F: Fn(&str) -> Option<A>>(
    line: &str,
    available_tickers: &TickerSet,
    parse_udp_addr: F,
) -> (res: Result<StreamCommand<A>, ParseStreamError>)
    requires
        forall|s: &str| parse_udp_addr.requires((s,)),
    ensures
        match stream_parts(line@) {
            Err(e) => res matches Err(x) && x@ == e,
            Ok(parts) => exists|s: &str, addr: Option<A>|
                s@ == parts.udp_addr && parse_udp_addr.ensures((s,), addr) && match addr {
                    None => res matches Err(x) && x@ == ParseStreamErrorView::InvalidUdpAddress,
                    Some(a) => match ticker_list(parts.tickers, available_tickers@) {
                        Ok(names) => res matches Ok(command) && command.udp_addr == a && ticker_texts(
                            command.tickers@,
                        ) == names,
                        Err(err) => res matches Err(x) && x@ == err,
                    },
                },
        },
{
    let parts = match split_stream_command(line) {
        Ok(parts) => parts,
        Err(e) => return Err(e),
    };
    let addr = parse_udp_addr(parts.udp_addr.as_str());
    finish_stream_command(parts, addr, available_tickers)
}

/// Every refusal is answered with a line that starts with `ERR ` and ends
/// with a newline, so no refusal is answered `OK`.
pub proof fn lemma_error_response_shape(e: ParseStreamErrorView)
    ensures
        error_response(e).len() >= 5,
        error_response(e).take(4) == "ERR "@,
        error_response(e).last() == '\n',
        error_response(e) != "OK\n"@,
{
    reveal_strlit("ERR ");
    reveal_strlit("OK\n");
    reveal_strlit("\n");
    reveal_strlit("ERR invalid command\n");
    reveal_strlit("ERR invalid udp address\n");
    reveal_strlit("ERR empty ticker list\n");
    reveal_strlit("ERR unknown ticker: ");
    let r = error_response(e);
    assert(r.take(4) =~= "ERR "@);
    assert(r[0] == 'E');
    assert("OK\n"@[0] == 'O');
}

/// A trailing newline never changes how a command line is taken apart, so
/// it never changes whether or how a command is read.
pub proof fn lemma_trailing_newline_ignored(line: Seq<char>)
    ensures
        command_body(line.push('\n')) == command_body(line),
        stream_parts(line.push('\n')) == stream_parts(line),
{
    text::lemma_trim_start_push_whitespace(line, '\n');
    let t = text::trim_start(line);
    if t.len() > 0 {
        assert(t.push('\n').drop_last() =~= t);
        assert(text::trim_end_matches(t.push('\n'), '\n') == text::trim_end_matches(t, '\n'));
    } else {
        assert(t =~= Seq::<char>::empty());
    }
}

/// Knowing more tickers never changes an acceptance, nor a refusal other
/// than for an unknown ticker: with `available` a subset of `more`, an
/// accepted list is accepted alike, and a list refused for any other
/// reason is refused alike.
pub proof fn lemma_more_tickers_keep_outcomes(
    tickers: Seq<char>,
    available: Set<Seq<char>>,
    more: Set<Seq<char>>,
)
    requires
        available.subset_of(more),
    ensures
        ticker_list(tickers, available) is Ok ==> ticker_list(tickers, more) == ticker_list(
            tickers,
            available,
        ),
        (ticker_list(tickers, available) matches Err(e) && !(e is UnknownTicker)) ==> ticker_list(
            tickers,
            more,
        ) == ticker_list(tickers, available),
{
    let names = ticker_names(tickers);
    lemma_first_unknown(names, available);
    lemma_first_unknown(names, more);
    if first_unknown(names, available) is None {
        assert forall|i: int| 0 <= i < names.len() implies more.contains(#[trigger] names[i]) by {
            assert(available.contains(names[i]));
        }
    }
}

/// Distinct refusals are answered with distinct lines.
pub proof fn lemma_error_response_distinct(e1: ParseStreamErrorView, e2: ParseStreamErrorView)
    requires
        e1 != e2,
    ensures
        error_response(e1) != error_response(e2),
{
    reveal_strlit("ERR invalid command\n");
    reveal_strlit("ERR invalid udp address\n");
    reveal_strlit("ERR empty ticker list\n");
    reveal_strlit("ERR unknown ticker: ");
    reveal_strlit("\n");
    let r1 = error_response(e1);
    let r2 = error_response(e2);
    let prefix = "ERR unknown ticker: "@;
    if r1 == r2 {
        assert(r1[4] == r2[4]);
        assert(r1[12] == r2[12]);
        match (e1, e2) {
            (
                ParseStreamErrorView::UnknownTicker { ticker: t1 },
                ParseStreamErrorView::UnknownTicker { ticker: t2 },
            ) => {
                assert(r1.subrange(20, r1.len() - 1) =~= t1);
                assert(r2.subrange(20, r2.len() - 1) =~= t2);
            },
            _ => {},
        }
    }
}

/// Whitespace other than spaces appended to a command body changes nothing
/// in how it is taken apart.
pub proof fn lemma_body_parts_extend(body: Seq<char>, u: Seq<char>)
    requires
        text::all_whitespace(u),
        !u.contains(' '),
    ensures
        body_parts(body + u) == body_parts(body),
{
    let b2 = body + u;
    let p = command_prefix();
    // The prefix check comes out alike.
    if body.len() >= 6 {
        assert(b2.take(6) =~= body.take(6));
    } else if b2.len() >= 6 && b2.take(6) == p {
        let k = body.len() as int;
        assert(b2[k] == u[0]);
        assert(is_whitespace_at(u, 0));
        assert(b2.take(6)[k] == p[k]);
        assert(!text::is_whitespace(p[k]));
    }
    // The pieces come out alike, but for the last one.
    text::lemma_split_len(body, ' ');
    text::lemma_split_extend_last(body, u, ' ');
    let words = text::split(body, ' ');
    let words2 = text::split(b2, ' ');
    if words.len() >= 3 {
        assert(words2[0] == words[0]);
        assert(words2[1] == words[1]);
        let k = words[0].len() + words[1].len() + 2;
        text::lemma_join_split(body, ' ');
        text::lemma_join_first_two(words, ' ');
        let rest = text::join(words.skip(2), ' ');
        assert(body.skip(k as int) =~= rest);
        assert(b2.skip(k as int) =~= rest + u);
        text::lemma_trim_append_whitespace(rest, u);
    }
}

/// `u[i]` is whitespace.
spec fn is_whitespace_at(u: Seq<char>, i: int) -> bool {
    text::is_whitespace(u[i])
}

/// Whitespace other than spaces at the end of a command line, such as the
/// `\r\n` or `\n` that ends a line, never changes how the line is read.
pub proof fn lemma_trailing_whitespace_ignored(line: Seq<char>, w: Seq<char>)
    requires
        text::all_whitespace(w),
        !w.contains(' '),
    ensures
        stream_parts(line + w) == stream_parts(line),
{
    text::lemma_trim_start_append_whitespace(line, w);
    let t = text::trim_start(line);
    if t.len() > 0 {
        let u = text::lemma_trim_end_matches_append(t, w);
        lemma_body_parts_extend(command_body(line), u);
    } else {
        assert(t =~= Seq::<char>::empty());
    }
}

/// A ticker list that names known, well-formed tickers is accepted as
/// exactly those tickers, however many there are, in their order; and any
/// accepted list is accepted as all of its names.
pub proof fn lemma_ticker_list_keeps_all(tickers: Seq<Seq<char>>, available: Set<Seq<char>>, list: Seq<char>)
    requires
        tickers.len() > 0,
        forall|i: int|
            0 <= i < tickers.len() ==> {
                &&& (#[trigger] tickers[i]).len() > 0
                &&& text::trim(tickers[i]) == tickers[i]
                &&& !tickers[i].contains(',')
                &&& available.contains(tickers[i])
            },
    ensures
        ticker_list(text::join(tickers, ','), available) == Ok::<Seq<Seq<char>>, ParseStreamErrorView>(tickers),
        ticker_list(list, available) matches Ok(names) ==> names == ticker_names(list) && names.len() > 0,
{
    text::lemma_split_join(tickers, ',');
    text::lemma_nonblank_trimmed_identity(tickers);
    lemma_first_unknown(tickers, available);
}

/// Every written command line ends with a newline, and holds no other
/// newline when its address and tickers hold none.
pub proof fn lemma_command_line_ends_once(udp_addr: Seq<char>, tickers: Seq<Seq<char>>)
    ensures
        command_line(udp_addr, tickers).len() > 0,
        command_line(udp_addr, tickers).last() == '\n',
        (!udp_addr.contains('\n') && forall|i: int| 0 <= i < tickers.len() ==> !(#[trigger] tickers[i]).contains('\n'))
            ==> !command_line(udp_addr, tickers).drop_last().contains('\n'),
{
    let line = command_line(udp_addr, tickers);
    let p = command_prefix();
    let head = p + seq![' '] + udp_addr + seq![' '] + text::join(tickers, ',');
    assert(line.drop_last() =~= head);
    if !udp_addr.contains('\n') && forall|i: int| 0 <= i < tickers.len() ==> !(#[trigger] tickers[i]).contains('\n') {
        text::lemma_join_excludes(tickers, ',', '\n');
        let j = text::join(tickers, ',');
        if head.contains('\n') {
            let k = choose|k: int| 0 <= k < head.len() && head[k] == '\n';
            if k < 6 {
                assert(p[k] == '\n');
            } else if k == 6 {
            } else if k < 7 + udp_addr.len() {
                assert(udp_addr[k - 7] == '\n');
            } else if k == 7 + udp_addr.len() {
            } else {
                assert(j[k - 8 - udp_addr.len()] == '\n');
            }
        }
    }
}

} // verus!
