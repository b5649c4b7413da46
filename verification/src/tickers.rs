//! The list of known tickers: read from the text of a tickers file, one
//! ticker per line, and kept as a set for lookups.
use vstd::prelude::*;

use crate::quote::Ticker;
use crate::text;
use crate::text::{chars_of, nonblank_trimmed_pieces};

verus! {

broadcast use vstd::string::group_string_axioms;

/// A set of ticker names, each held once.
pub struct TickerSet {
    names: Vec<String>,
}

impl TickerSet {
    /// The names, in the order they were added.
    pub closed spec fn names(&self) -> Seq<Seq<char>> {
        self.names@.map_values(|s: String| s@)
    }

    #[verifier::type_invariant]
    closed spec fn well_formed(&self) -> bool {
        self.names().no_duplicates()
    }
}

impl View for TickerSet {
    type V = Set<Seq<char>>;

    closed spec fn view(&self) -> Set<Seq<char>> {
        self.names().to_set()
    }
}

impl TickerSet {
    /// An empty set.
    pub fn new() -> (res: Self)
        ensures
            res@ == Set::<Seq<char>>::empty(),
    {
        let res = TickerSet { names: Vec::new() };
        assert(res@ =~= Set::<Seq<char>>::empty());
        res
    }

    /// Tells whether `name` is in the set.
    pub fn contains(&self, name: &str) -> (res: bool)
        ensures
            res == self@.contains(name@),
    {
        let wanted = String::from_str(name);
        let n = self.names.len();
        for i in 0..n
            invariant
                n == self.names@.len(),
                wanted@ == name@,
                forall|j: int| 0 <= j < i ==> self.names@[j]@ != name@,
        {
            if self.names[i] == wanted {
                assert(self.names()[i as int] == name@);
                return true;
            }
        }
        assert(!self.names().contains(name@)) by {
            if self.names().contains(name@) {
                let j = choose|j: int| 0 <= j < self.names().len() && self.names()[j] == name@;
                assert(self.names@[j]@ == name@);
            }
        }
        false
    }

    /// Adds `name`; tells whether it was not in the set before.
    pub fn insert(&mut self, name: String) -> (res: bool)
        ensures
            res == !old(self)@.contains(name@),
            final(self)@ == old(self)@.insert(name@),
    {
        if self.contains(name.as_str()) {
            assert(self@.insert(name@) =~= self@);
            return false;
        }
        proof {
            use_type_invariant(&*self);
        }
        let ghost before = self.names();
        let mut names: Vec<String> = Vec::new();
        std::mem::swap(&mut names, &mut self.names);
        names.push(name);
        assert(names@.map_values(|s: String| s@) =~= before.push(name@));
        self.names = names;
        proof {
            before.lemma_push_to_set_commute(name@);
        }
        true
    }

    /// The number of names in the set.
    pub fn len(&self) -> (res: usize)
        ensures
            res == self@.len(),
    {
        proof {
            use_type_invariant(self);
            self.names().unique_seq_to_set();
        }
        self.names.len()
    }
}

/// Errors that come from reading a tickers file.
#[derive(Debug, PartialEq)]
pub enum TickersError {
    /// The file does not exist.
    FileNotFound,
    /// The file holds no ticker: it is empty or holds only blank lines.
    EmptyFile,
    /// Reading the file failed otherwise; the text describes how.
    IoError(String),
}

/// A [`TickersError`] with its text taken as a character sequence.
pub enum TickersErrorView {
    FileNotFound,
    EmptyFile,
    IoError(Seq<char>),
}

impl View for TickersError {
    type V = TickersErrorView;

    open spec fn view(&self) -> TickersErrorView {
        match self {
            TickersError::FileNotFound => TickersErrorView::FileNotFound,
            TickersError::EmptyFile => TickersErrorView::EmptyFile,
            TickersError::IoError(msg) => TickersErrorView::IoError(msg@),
        }
    }
}

/// The human-readable message of a tickers error.
pub open spec fn tickers_error_message(e: TickersErrorView) -> Seq<char> {
    match e {
        TickersErrorView::FileNotFound => "Tickers file not found"@,
        TickersErrorView::EmptyFile => "Tickers file is empty"@,
        TickersErrorView::IoError(msg) => "IO error: "@ + msg,
    }
}

impl TickersError {
    /// The error for a failed read: `FileNotFound` where the file was not
    /// found, otherwise `IoError` with the failure's description.
    pub fn from_io_error(not_found: bool, description: String) -> (res: Self)
        ensures
            not_found ==> res@ == TickersErrorView::FileNotFound,
            !not_found ==> res@ == TickersErrorView::IoError(description@),
    {
        if not_found {
            TickersError::FileNotFound
        } else {
            TickersError::IoError(description)
        }
    }

    /// The human-readable message of this error.
    pub fn to_string(&self) -> (res: String)
        ensures
            res@ == tickers_error_message(self@),
    {
        match self {
            TickersError::FileNotFound => String::from_str("Tickers file not found"),
            TickersError::EmptyFile => String::from_str("Tickers file is empty"),
            TickersError::IoError(msg) => {
                let mut res = String::from_str("IO error: ");
                res.append(msg.as_str());
                res
            },
        }
    }
}

/// The tickers that the text of a tickers file lists: its lines, each
/// trimmed, without the blank ones, in order.
pub open spec fn listed_tickers(content: Seq<char>) -> Seq<Seq<char>> {
    text::nonblank_trimmed(text::split(content, '\n'))
}

/// The texts of a sequence of tickers.
pub open spec fn ticker_texts(tickers: Seq<Ticker>) -> Seq<Seq<char>> {
    tickers.map_values(|t: Ticker| t.0@)
}

/// Reads the tickers from the text of a tickers file: one ticker per line,
/// whitespace around it trimmed, blank lines skipped. A text that lists
/// no ticker is refused with `EmptyFile`.
pub fn parse_tickers(content: &str) -> (res: Result<Vec<Ticker>, TickersError>)
    ensures
        match res {
            Ok(tickers) => listed_tickers(content@).len() > 0 && ticker_texts(tickers@) == listed_tickers(
                content@,
            ),
            Err(e) => listed_tickers(content@).len() == 0 && e@ == TickersErrorView::EmptyFile,
        },
{
    let chars = chars_of(content);
    let len = chars.len();
    assert(chars@.subrange(0, len as int) =~= content@);
    let names = nonblank_trimmed_pieces(content, &chars, 0, len, '\n');
    if names.len() == 0 {
        return Err(TickersError::EmptyFile);
    }
    let mut tickers: Vec<Ticker> = Vec::new();
    let n = names.len();
    for i in 0..n
        invariant
            n == names@.len(),
            ticker_texts(tickers@) == names@.map_values(|r: String| r@).take(i as int),
    {
        let ghost before = tickers@;
        tickers.push(Ticker(names[i].clone()));
        assert(ticker_texts(tickers@) =~= ticker_texts(before).push(names@[i as int]@));
        assert(names@.map_values(|r: String| r@).take(i + 1) =~= names@.map_values(|r: String| r@).take(
            i as int,
        ).push(names@[i as int]@));
    }
    assert(names@.map_values(|r: String| r@).take(n as int) =~= names@.map_values(|r: String| r@));
    Ok(tickers)
}

/// Reads the tickers from the text of a tickers file into a set, as
/// [`parse_tickers`] reads them; a ticker listed twice is held once.
pub fn read_tickers_to_set(content: &str) -> (res: Result<TickerSet, TickersError>)
    ensures
        match res {
            Ok(set) => listed_tickers(content@).len() > 0 && set@ == listed_tickers(content@).to_set(),
            Err(e) => listed_tickers(content@).len() == 0 && e@ == TickersErrorView::EmptyFile,
        },
{
    let tickers = match parse_tickers(content) {
        Ok(tickers) => tickers,
        Err(e) => return Err(e),
    };
    let mut set = TickerSet::new();
    let n = tickers.len();
    for i in 0..n
        invariant
            n == tickers@.len(),
            set@ == ticker_texts(tickers@).take(i as int).to_set(),
    {
        let ghost before = set@;
        set.insert(tickers[i].0.clone());
        proof {
            assert(ticker_texts(tickers@).take(i + 1) =~= ticker_texts(tickers@).take(i as int).push(
                tickers@[i as int].0@,
            ));
            ticker_texts(tickers@).take(i as int).lemma_push_to_set_commute(tickers@[i as int].0@);
        }
    }
    assert(ticker_texts(tickers@).take(n as int) =~= ticker_texts(tickers@));
    Ok(set)
}

/// Every ticker a tickers file lists is not empty, carries no surrounding
/// whitespace, and holds no line break.
pub proof fn lemma_listed_tickers_shape(content: Seq<char>, i: int)
    requires
        0 <= i < listed_tickers(content).len(),
    ensures
        listed_tickers(content)[i].len() > 0,
        text::trim(listed_tickers(content)[i]) == listed_tickers(content)[i],
        !listed_tickers(content)[i].contains('\n'),
{
    let lines = text::split(content, '\n');
    text::lemma_nonblank_trimmed_from(lines, i);
    let j = choose|j: int| 0 <= j < lines.len() && listed_tickers(content)[i] == text::trim(#[trigger] lines[j]);
    text::lemma_split_pieces_exclude(content, '\n', j);
    text::lemma_trim_excludes(lines[j], '\n');
    text::lemma_trim_idempotent(lines[j]);
}

/// A tickers file that lists tickers one per line lists exactly those
/// tickers, in order. This holds when there is at least one ticker and each
/// is not empty, carries no surrounding whitespace and holds no line break.
pub proof fn lemma_tickers_file_roundtrip(tickers: Seq<Seq<char>>)
    requires
        tickers.len() > 0,
        forall|i: int|
            0 <= i < tickers.len() ==> {
                &&& (#[trigger] tickers[i]).len() > 0
                &&& text::trim(tickers[i]) == tickers[i]
                &&& !tickers[i].contains('\n')
            },
    ensures
        listed_tickers(text::join(tickers, '\n')) == tickers,
{
    text::lemma_split_join(tickers, '\n');
    text::lemma_nonblank_trimmed_identity(tickers);
}

/// A trailing newline never changes what a tickers file lists, so a file
/// that lists tickers one per line, each line ended by a newline, lists
/// exactly those tickers, however many there are. The second part holds
/// when there is at least one ticker and each is not empty, carries no
/// surrounding whitespace and holds no line break.
pub proof fn lemma_trailing_newline_lists_alike(content: Seq<char>, tickers: Seq<Seq<char>>)
    ensures
        listed_tickers(content.push('\n')) == listed_tickers(content),
        (tickers.len() > 0 && forall|i: int|
            0 <= i < tickers.len() ==> {
                &&& (#[trigger] tickers[i]).len() > 0
                &&& text::trim(tickers[i]) == tickers[i]
                &&& !tickers[i].contains('\n')
            }) ==> listed_tickers(text::join(tickers, '\n').push('\n')) == tickers,
{
    lemma_trailing_newline_once(content);
    if tickers.len() > 0 && forall|i: int|
        0 <= i < tickers.len() ==> {
            &&& (#[trigger] tickers[i]).len() > 0
            &&& text::trim(tickers[i]) == tickers[i]
            &&& !tickers[i].contains('\n')
        } {
        lemma_tickers_file_roundtrip(tickers);
        lemma_trailing_newline_once(text::join(tickers, '\n'));
    }
}

proof fn lemma_trailing_newline_once(content: Seq<char>)
    ensures
        listed_tickers(content.push('\n')) == listed_tickers(content),
{
    let c = content.push('\n');
    assert(c.drop_last() =~= content);
    let lines = text::split(content, '\n');
    assert(text::split(c, '\n') == lines.push(Seq::<char>::empty()));
    text::lemma_nonblank_trimmed_push(lines, Seq::<char>::empty());
    assert(text::trim(Seq::<char>::empty()) =~= Seq::<char>::empty());
}

} // verus!
