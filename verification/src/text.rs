//! A character-level model of the text operations the protocol relies on:
//! Unicode whitespace trimming, splitting on a separator, and decimal
//! numerals. Each operation is stated as a spec function over `Seq<char>`
//! and implemented by an executable function proved against it.
use vstd::prelude::*;

verus! {

broadcast use vstd::string::group_string_axioms;

/// The Unicode `White_Space` characters, as `char::is_whitespace` knows them.
pub open spec fn is_whitespace(c: char) -> bool {
    ||| ('\t' <= c && c <= '\r')
    ||| c == ' '
    ||| c == '\u{85}'
    ||| c == '\u{a0}'
    ||| c == '\u{1680}'
    ||| ('\u{2000}' <= c && c <= '\u{200a}')
    ||| c == '\u{2028}'
    ||| c == '\u{2029}'
    ||| c == '\u{202f}'
    ||| c == '\u{205f}'
    ||| c == '\u{3000}'
}

/// `s` without its leading whitespace.
pub open spec fn trim_start(s: Seq<char>) -> Seq<char>
    decreases s.len(),
{
    if s.len() > 0 && is_whitespace(s[0]) {
        trim_start(s.drop_first())
    } else {
        s
    }
}

/// `s` without its trailing whitespace.
pub open spec fn trim_end(s: Seq<char>) -> Seq<char>
    decreases s.len(),
{
    if s.len() > 0 && is_whitespace(s.last()) {
        trim_end(s.drop_last())
    } else {
        s
    }
}

/// `s` without leading and trailing whitespace.
pub open spec fn trim(s: Seq<char>) -> Seq<char> {
    trim_end(trim_start(s))
}

/// `s` without any run of `c` at its end.
pub open spec fn trim_end_matches(s: Seq<char>, c: char) -> Seq<char>
    decreases s.len(),
{
    if s.len() > 0 && s.last() == c {
        trim_end_matches(s.drop_last(), c)
    } else {
        s
    }
}

/// The pieces of `s` between occurrences of `sep`, in order; an empty text
/// has one empty piece and `n` separators give `n + 1` pieces.
pub open spec fn split(s: Seq<char>, sep: char) -> Seq<Seq<char>>
    decreases s.len(),
{
    if s.len() == 0 {
        seq![Seq::<char>::empty()]
    } else {
        let pieces = split(s.drop_last(), sep);
        if s.last() == sep {
            pieces.push(Seq::<char>::empty())
        } else {
            pieces.update(pieces.len() - 1, pieces.last().push(s.last()))
        }
    }
}

/// Copies the characters of `s` into a vector, in order.
pub fn chars_of(s: &str) -> (res: Vec<char>)
    ensures
        res@ == s@,
{
    let mut res: Vec<char> = Vec::new();
    for c in it: s.chars()
        invariant
            it.seq() == s@,
            res@ == it.seq().take(it.index() as int),
    {
        res.push(c);
    }
    res
}

/// Tells whether `c` is Unicode whitespace.
pub fn is_whitespace_char(c: char) -> (res: bool)
    ensures
        res == is_whitespace(c),
{
    ('\t' <= c && c <= '\r') || c == ' ' || c == '\u{85}' || c == '\u{a0}' || c == '\u{1680}'
        || ('\u{2000}' <= c && c <= '\u{200a}') || c == '\u{2028}' || c == '\u{2029}' || c
        == '\u{202f}' || c == '\u{205f}' || c == '\u{3000}'
}

/// The bounds of `trim(chars[lo..hi])` inside `chars`.
pub fn trim_range(chars: &Vec<char>, lo: usize, hi: usize) -> (res: (usize, usize))
    requires
        lo <= hi <= chars@.len(),
    ensures
        lo <= res.0 <= res.1 <= hi,
        chars@.subrange(res.0 as int, res.1 as int) == trim(chars@.subrange(lo as int, hi as int)),
{
    let mut i = lo;
    while i < hi && is_whitespace_char(chars[i])
        invariant
            lo <= i <= hi <= chars@.len(),
            trim_start(chars@.subrange(lo as int, hi as int)) == trim_start(
                chars@.subrange(i as int, hi as int),
            ),
        decreases hi - i,
    {
        assert(chars@.subrange(i as int, hi as int).drop_first() =~= chars@.subrange(
            i + 1,
            hi as int,
        ));
        i = i + 1;
    }
    let mut j = hi;
    while j > i && is_whitespace_char(chars[j - 1])
        invariant
            lo <= i <= j <= hi <= chars@.len(),
            trim_start(chars@.subrange(lo as int, hi as int)) == chars@.subrange(
                i as int,
                hi as int,
            ),
            trim_end(chars@.subrange(i as int, hi as int)) == trim_end(
                chars@.subrange(i as int, j as int),
            ),
        decreases j - i,
    {
        assert(chars@.subrange(i as int, j as int).drop_last() =~= chars@.subrange(
            i as int,
            j - 1,
        ));
        j = j - 1;
    }
    (i, j)
}


/// The piece bounds of `split(chars[lo..hi], sep)` inside `chars`: piece
/// `k` is `chars[res[k].0..res[k].1]`, the first piece starts at `lo`, the
/// last ends at `hi`, and consecutive pieces are one separator apart.
pub fn split_ranges(chars: &Vec<char>, lo: usize, hi: usize, sep: char) -> (res: Vec<(usize, usize)>)
    requires
        lo <= hi <= chars@.len(),
    ensures
        res@.len() == split(chars@.subrange(lo as int, hi as int), sep).len(),
        res@.len() >= 1,
        res@[0].0 == lo,
        res@[res@.len() - 1].1 == hi,
        forall|k: int|
            0 <= k < res@.len() ==> {
                &&& lo <= (#[trigger] res@[k]).0 <= res@[k].1 <= hi
                &&& chars@.subrange(res@[k].0 as int, res@[k].1 as int) == split(
                    chars@.subrange(lo as int, hi as int),
                    sep,
                )[k]
            },
        forall|k: int| 0 < k < res@.len() ==> (#[trigger] res@[k]).0 == res@[k - 1].1 + 1,
{
    let mut res: Vec<(usize, usize)> = Vec::new();
    let mut start = lo;
    let mut i = lo;
    while i < hi
        invariant
            lo <= start <= i <= hi <= chars@.len(),
            split(chars@.subrange(lo as int, i as int), sep).len() == res@.len() + 1,
            split(chars@.subrange(lo as int, i as int), sep)[res@.len() as int] == chars@.subrange(
                start as int,
                i as int,
            ),
            res@.len() == 0 ==> start == lo,
            res@.len() > 0 ==> res@[0].0 == lo && start == res@[res@.len() - 1].1 + 1,
            forall|k: int|
                0 <= k < res@.len() ==> {
                    &&& lo <= (#[trigger] res@[k]).0 <= res@[k].1 < start
                    &&& chars@.subrange(res@[k].0 as int, res@[k].1 as int) == split(
                        chars@.subrange(lo as int, i as int),
                        sep,
                    )[k]
                },
            forall|k: int| 0 < k < res@.len() ==> (#[trigger] res@[k]).0 == res@[k - 1].1 + 1,
        decreases hi - i,
    {
        let ghost prev = chars@.subrange(lo as int, i as int);
        assert(chars@.subrange(lo as int, i + 1).drop_last() =~= prev);
        if chars[i] == sep {
            res.push((start, i));
            start = i + 1;
            assert(chars@.subrange(start as int, i + 1) =~= Seq::<char>::empty());
        } else {
            assert(chars@.subrange(start as int, i + 1) =~= chars@.subrange(
                start as int,
                i as int,
            ).push(chars@[i as int]));
        }
        i = i + 1;
    }
    res.push((start, hi));
    res
}

/// The character of decimal digit `d`.
pub open spec fn digit_char(d: nat) -> char {
    ('0' as nat + d) as char
}

/// Tells whether `c` is an ASCII decimal digit.
pub open spec fn is_digit(c: char) -> bool {
    '0' <= c && c <= '9'
}

/// The value of the ASCII decimal digit `c`.
pub open spec fn digit_value(c: char) -> nat {
    (c as nat - '0' as nat) as nat
}

/// The decimal numeral of `n`, without sign or leading zeros.
pub open spec fn decimal(n: nat) -> Seq<char>
    decreases n,
{
    if n < 10 {
        seq![digit_char(n)]
    } else {
        decimal(n / 10).push(digit_char(n % 10))
    }
}

/// The number that the digit string `s` denotes.
pub open spec fn digits_value(s: Seq<char>) -> nat
    decreases s.len(),
{
    if s.len() == 0 {
        0
    } else {
        digits_value(s.drop_last()) * 10 + digit_value(s.last())
    }
}

/// Tells whether every character of `s` is a decimal digit.
pub open spec fn all_digits(s: Seq<char>) -> bool {
    forall|i: int| 0 <= i < s.len() ==> is_digit(#[trigger] s[i])
}

/// The digits of an unsigned numeral: `s` without one leading `+`.
pub open spec fn unsigned_digits(s: Seq<char>) -> Seq<char> {
    if s.len() > 0 && s[0] == '+' {
        s.drop_first()
    } else {
        s
    }
}

/// What `from_str` gives for an unsigned integer type whose largest value
/// is `max`: an optional `+`, then one or more decimal digits whose value
/// does not exceed `max`; anything else is refused.
pub open spec fn parse_unsigned(s: Seq<char>, max: nat) -> Option<nat> {
    let d = unsigned_digits(s);
    if d.len() > 0 && all_digits(d) && digits_value(d) <= max {
        Some(digits_value(d))
    } else {
        None
    }
}

/// A digit string denotes at least as much as any of its prefixes.
pub proof fn lemma_digits_value_prefix(s: Seq<char>, k: int)
    requires
        0 <= k <= s.len(),
    ensures
        digits_value(s.take(k)) <= digits_value(s),
    decreases s.len(),
{
    if k < s.len() {
        assert(s.drop_last().take(k) =~= s.take(k));
        lemma_digits_value_prefix(s.drop_last(), k);
    } else {
        assert(s.take(k) =~= s);
    }
}

/// The numeral of `n` is a digit string that denotes `n`.
pub proof fn lemma_decimal_digits(n: nat)
    ensures
        decimal(n).len() > 0,
        all_digits(decimal(n)),
        digits_value(decimal(n)) == n,
        decimal(n)[0] != '+',
    decreases n,
{
    if n >= 10 {
        lemma_decimal_digits(n / 10);
        assert(digit_value(digit_char(n % 10)) == n % 10);
        assert(decimal(n).drop_last() =~= decimal(n / 10));
        assert(decimal(n).last() == digit_char(n % 10));
        assert(digits_value(decimal(n)) == digits_value(decimal(n / 10)) * 10 + n % 10);
        assert(n == (n / 10) * 10 + n % 10);
        assert(decimal(n)[0] == decimal(n / 10)[0]);
    } else {
        assert(decimal(n).drop_last() =~= Seq::<char>::empty());
        assert(digit_value(digit_char(n)) == n);
        assert(digits_value(Seq::<char>::empty()) == 0);
        assert(digits_value(decimal(n)) == digits_value(decimal(n).drop_last()) * 10
            + digit_value(decimal(n).last()));
    }
}

/// Reading back a numeral gives the number it was written from.
pub proof fn lemma_parse_decimal(n: nat, max: nat)
    requires
        n <= max,
    ensures
        parse_unsigned(decimal(n), max) == Some(n),
{
    lemma_decimal_digits(n);
}

/// Parses `chars[lo..hi]` as an unsigned integer of at most `max`.
pub fn parse_unsigned_range(chars: &Vec<char>, lo: usize, hi: usize, max: u64) -> (res: Option<u64>)
    requires
        lo <= hi <= chars@.len(),
    ensures
        match parse_unsigned(chars@.subrange(lo as int, hi as int), max as nat) {
            Some(v) => res == Some(v as u64),
            None => res is None,
        },
{
    let ghost s = chars@.subrange(lo as int, hi as int);
    let mut start = lo;
    if lo < hi && chars[lo] == '+' {
        start = lo + 1;
    }
    assert(unsigned_digits(s) =~= chars@.subrange(start as int, hi as int));
    if start == hi {
        return None;
    }
    let mut acc: u64 = 0;
    let mut i = start;
    while i < hi
        invariant
            lo <= start <= i <= hi <= chars@.len(),
            s == chars@.subrange(lo as int, hi as int),
            unsigned_digits(s) == chars@.subrange(start as int, hi as int),
            all_digits(chars@.subrange(start as int, i as int)),
            acc == digits_value(chars@.subrange(start as int, i as int)),
            acc <= max,
        decreases hi - i,
    {
        let c = chars[i];
        let ghost d = chars@.subrange(start as int, hi as int);
        assert(chars@.subrange(start as int, i + 1).drop_last() =~= chars@.subrange(
            start as int,
            i as int,
        ));
        assert(d.take(i + 1 - start) =~= chars@.subrange(start as int, i + 1));
        if !('0' <= c && c <= '9') {
            assert(!is_digit(d[i - start]));
            assert(!all_digits(d));
            assert(!all_digits(unsigned_digits(s)));
            return None;
        }
        let digit = (c as u32 - '0' as u32) as u64;
        let next = match acc.checked_mul(10) {
            Some(m) => m.checked_add(digit),
            None => None,
        };
        match next {
            Some(v) if v <= max => {
                acc = v;
            },
            _ => {
                proof {
                    if all_digits(d) {
                        lemma_digits_value_prefix(d, i + 1 - start);
                    }
                }
                return None;
            },
        }
        i = i + 1;
    }
    assert(chars@.subrange(start as int, hi as int) =~= chars@.subrange(start as int, i as int));
    Some(acc)
}

/// The characters `s[from..to]` as an owned string.
pub fn substring(s: &str, from: usize, to: usize) -> (res: String)
    requires
        from <= to <= s@.len(),
    ensures
        res@ == s@.subrange(from as int, to as int),
{
    String::from_str(s.substring_char(from, to))
}

/// Appends the decimal numeral of `n` to `out`.
pub fn push_decimal(out: &mut String, n: u64)
    ensures
        final(out)@ == old(out)@ + decimal(n as nat),
    decreases n,
{
    if n >= 10 {
        push_decimal(out, n / 10);
    }
    let digits = "0123456789";
    proof {
        reveal_strlit("0123456789");
    }
    let d = (n % 10) as usize;
    let piece = digits.substring_char(d, d + 1);
    assert(piece@ =~= seq![digit_char(d as nat)]);
    out.append(piece);
    assert(out@ =~= old(out)@ + decimal(n as nat));
}

/// A text without the separator is a single piece.
pub proof fn lemma_split_single(b: Seq<char>, sep: char)
    requires
        !b.contains(sep),
    ensures
        split(b, sep) == seq![b],
    decreases b.len(),
{
    if b.len() > 0 {
        assert(!b.drop_last().contains(sep)) by {
            if b.drop_last().contains(sep) {
                let i = choose|i: int| 0 <= i < b.drop_last().len() && b.drop_last()[i] == sep;
                assert(b[i] == sep);
            }
        }
        lemma_split_single(b.drop_last(), sep);
        assert(b.last() != sep) by {
            assert(b[b.len() - 1] == b.last());
        }
        assert(b.drop_last().push(b.last()) =~= b);
        assert(split(b, sep) =~= seq![b]);
    } else {
        assert(b =~= Seq::<char>::empty());
    }
}

/// Appending a separator and a separator-free text adds that text as one
/// more piece.
pub proof fn lemma_split_append(a: Seq<char>, sep: char, b: Seq<char>)
    requires
        !b.contains(sep),
    ensures
        split(a + seq![sep] + b, sep) == split(a, sep).push(b),
    decreases b.len(),
{
    let s = a + seq![sep] + b;
    if b.len() == 0 {
        assert(s.drop_last() =~= a);
        assert(b =~= Seq::<char>::empty());
    } else {
        assert(!b.drop_last().contains(sep)) by {
            if b.drop_last().contains(sep) {
                let i = choose|i: int| 0 <= i < b.drop_last().len() && b.drop_last()[i] == sep;
                assert(b[i] == sep);
            }
        }
        lemma_split_append(a, sep, b.drop_last());
        assert(s.drop_last() =~= a + seq![sep] + b.drop_last());
        assert(b.last() != sep) by {
            assert(b[b.len() - 1] == b.last());
        }
        assert(s.last() == b.last());
        assert(b.drop_last().push(b.last()) =~= b);
        assert(split(s, sep) =~= split(a, sep).push(b));
    }
}

/// A numeral holds only digits, so none of the characters `sep` that are not digits.
pub proof fn lemma_decimal_excludes(n: nat, sep: char)
    requires
        !is_digit(sep),
    ensures
        !decimal(n).contains(sep),
{
    lemma_decimal_digits(n);
    if decimal(n).contains(sep) {
        let i = choose|i: int| 0 <= i < decimal(n).len() && decimal(n)[i] == sep;
        assert(is_digit(decimal(n)[i]));
    }
}

/// The pieces, each trimmed, without those that trim to nothing.
pub open spec fn nonblank_trimmed(pieces: Seq<Seq<char>>) -> Seq<Seq<char>> {
    pieces.map_values(|p: Seq<char>| trim(p)).filter(|t: Seq<char>| t.len() > 0)
}

/// Adding one piece at the end adds its trimmed form, when that is not empty.
pub proof fn lemma_nonblank_trimmed_push(pieces: Seq<Seq<char>>, piece: Seq<char>)
    ensures
        nonblank_trimmed(pieces.push(piece)) == if trim(piece).len() > 0 {
            nonblank_trimmed(pieces).push(trim(piece))
        } else {
            nonblank_trimmed(pieces)
        },
{
    let f = |p: Seq<char>| trim(p);
    let keep = |t: Seq<char>| t.len() > 0;
    let mapped = pieces.push(piece).map_values(f);
    assert(mapped =~= pieces.map_values(f).push(trim(piece)));
    assert(mapped.drop_last() =~= pieces.map_values(f));
    reveal(Seq::filter);
}

/// The nonblank trimmed pieces of `split(chars[lo..hi], sep)`, as strings;
/// `s` is the text whose characters `chars` holds.
pub fn nonblank_trimmed_pieces(s: &str, chars: &Vec<char>, lo: usize, hi: usize, sep: char) -> (res: Vec<String>)
    requires
        chars@ == s@,
        lo <= hi <= chars@.len(),
    ensures
        res@.map_values(|r: String| r@) == nonblank_trimmed(
            split(chars@.subrange(lo as int, hi as int), sep),
        ),
{
    let ranges = split_ranges(chars, lo, hi, sep);
    let ghost pieces = split(chars@.subrange(lo as int, hi as int), sep);
    let mut res: Vec<String> = Vec::new();
    let n = ranges.len();
    assert(pieces.take(0) =~= Seq::<Seq<char>>::empty());
    assert(nonblank_trimmed(Seq::<Seq<char>>::empty()) =~= Seq::<Seq<char>>::empty()) by {
        reveal(Seq::filter);
    }
    for k in 0..n
        invariant
            n == ranges@.len(),
            n == pieces.len(),
            chars@ == s@,
            lo <= hi <= chars@.len(),
            pieces == split(chars@.subrange(lo as int, hi as int), sep),
            forall|j: int|
                0 <= j < ranges@.len() ==> {
                    &&& lo <= (#[trigger] ranges@[j]).0 <= ranges@[j].1 <= hi
                    &&& chars@.subrange(ranges@[j].0 as int, ranges@[j].1 as int) == pieces[j]
                },
            res@.map_values(|r: String| r@) == nonblank_trimmed(pieces.take(k as int)),
    {
        let (a, b) = ranges[k];
        let (t0, t1) = trim_range(chars, a, b);
        proof {
            assert(pieces.take(k + 1) =~= pieces.take(k as int).push(pieces[k as int]));
            lemma_nonblank_trimmed_push(pieces.take(k as int), pieces[k as int]);
        }
        if t0 < t1 {
            let ghost before = res@;
            res.push(substring(s, t0, t1));
            assert(res@.map_values(|r: String| r@) =~= before.map_values(|r: String| r@).push(
                chars@.subrange(t0 as int, t1 as int),
            ));
        }
    }
    assert(pieces.take(n as int) =~= pieces);
    res
}

/// Tells whether `s` holds the character `c`.
pub fn contains_char(s: &str, c: char) -> (res: bool)
    ensures
        res == s@.contains(c),
{
    let chars = chars_of(s);
    let n = chars.len();
    for i in 0..n
        invariant
            n == chars@.len(),
            chars@ == s@,
            forall|j: int| 0 <= j < i ==> chars@[j] != c,
    {
        if chars[i] == c {
            assert(s@[i as int] == c);
            return true;
        }
    }
    false
}

/// Tells whether one of `texts` holds the character `c`.
pub fn any_contains_char(texts: &Vec<String>, c: char) -> (res: bool)
    ensures
        res == exists|j: int| 0 <= j < texts@.len() && (#[trigger] texts@[j])@.contains(c),
{
    let n = texts.len();
    for j in 0..n
        invariant
            n == texts@.len(),
            forall|k: int| 0 <= k < j ==> !(#[trigger] texts@[k])@.contains(c),
    {
        if contains_char(texts[j].as_str(), c) {
            return true;
        }
    }
    false
}

/// The pieces joined into one text, with `sep` between neighbours.
pub open spec fn join(pieces: Seq<Seq<char>>, sep: char) -> Seq<char>
    decreases pieces.len(),
{
    if pieces.len() == 0 {
        Seq::<char>::empty()
    } else if pieces.len() == 1 {
        pieces[0]
    } else {
        join(pieces.drop_last(), sep) + seq![sep] + pieces.last()
    }
}

/// Trimming never lengthens a text.
pub proof fn lemma_trim_len(s: Seq<char>)
    ensures
        trim_start(s).len() <= s.len(),
        trim_end(s).len() <= s.len(),
        trim(s).len() <= s.len(),
    decreases s.len(),
{
    if s.len() > 0 {
        lemma_trim_len(s.drop_first());
        lemma_trim_len(s.drop_last());
    }
    if trim_start(s).len() <= s.len() {
        lemma_trim_len_end(trim_start(s));
    }
}

proof fn lemma_trim_len_end(s: Seq<char>)
    ensures
        trim_end(s).len() <= s.len(),
    decreases s.len(),
{
    if s.len() > 0 {
        lemma_trim_len_end(s.drop_last());
    }
}

/// A nonempty text that trimming leaves alone starts and ends with a
/// character that is not whitespace, and conversely.
pub proof fn lemma_trimmed_ends(s: Seq<char>)
    requires
        s.len() > 0,
    ensures
        trim(s) == s <==> (!is_whitespace(s[0]) && !is_whitespace(s.last())),
{
    lemma_trim_len(s);
    if is_whitespace(s[0]) {
        lemma_trim_len(s.drop_first());
        lemma_trim_len_end(trim_start(s));
    } else if is_whitespace(s.last()) {
        lemma_trim_len_end(s.drop_last());
    }
}

/// Splitting joined pieces that do not hold the separator gives them back.
pub proof fn lemma_split_join(pieces: Seq<Seq<char>>, sep: char)
    requires
        pieces.len() > 0,
        forall|i: int| 0 <= i < pieces.len() ==> !(#[trigger] pieces[i]).contains(sep),
    ensures
        split(join(pieces, sep), sep) == pieces,
    decreases pieces.len(),
{
    if pieces.len() == 1 {
        lemma_split_single(pieces[0], sep);
        assert(seq![pieces[0]] =~= pieces);
    } else {
        let init = pieces.drop_last();
        assert forall|i: int| 0 <= i < init.len() implies !(#[trigger] init[i]).contains(sep) by {
            assert(init[i] == pieces[i]);
        }
        lemma_split_join(init, sep);
        assert(!pieces.last().contains(sep)) by {
            assert(pieces.last() == pieces[pieces.len() - 1]);
        }
        lemma_split_append(join(init, sep), sep, pieces.last());
        assert(init.push(pieces.last()) =~= pieces);
    }
}

/// Joined pieces hold no character that none of the pieces holds, other
/// than the separator.
pub proof fn lemma_join_excludes(pieces: Seq<Seq<char>>, sep: char, c: char)
    requires
        c != sep,
        forall|i: int| 0 <= i < pieces.len() ==> !(#[trigger] pieces[i]).contains(c),
    ensures
        !join(pieces, sep).contains(c),
    decreases pieces.len(),
{
    if pieces.len() == 1 {
        assert(!pieces[0].contains(c));
    } else if pieces.len() > 1 {
        let init = pieces.drop_last();
        assert forall|i: int| 0 <= i < init.len() implies !(#[trigger] init[i]).contains(c) by {
            assert(init[i] == pieces[i]);
        }
        lemma_join_excludes(init, sep, c);
        let last = pieces[pieces.len() - 1];
        assert(!last.contains(c));
        let j = join(pieces, sep);
        let head = join(init, sep);
        if j.contains(c) {
            let k = choose|k: int| 0 <= k < j.len() && j[k] == c;
            if k < head.len() {
                assert(head[k] == c);
            } else if k > head.len() {
                assert(last[k - head.len() - 1] == c);
            }
        }
    }
}

/// Joined nonempty pieces start with the first piece's first character
/// and end with the last piece's last character.
pub proof fn lemma_join_ends(pieces: Seq<Seq<char>>, sep: char)
    requires
        pieces.len() > 0,
        forall|i: int| 0 <= i < pieces.len() ==> (#[trigger] pieces[i]).len() > 0,
    ensures
        join(pieces, sep).len() > 0,
        join(pieces, sep)[0] == pieces[0][0],
        join(pieces, sep).last() == pieces.last().last(),
    decreases pieces.len(),
{
    if pieces.len() > 1 {
        let init = pieces.drop_last();
        assert forall|i: int| 0 <= i < init.len() implies (#[trigger] init[i]).len() > 0 by {
            assert(init[i] == pieces[i]);
        }
        lemma_join_ends(init, sep);
        assert(pieces[pieces.len() - 1].len() > 0);
    }
}

/// Pieces that are nonempty and trimmed pass through unchanged.
pub proof fn lemma_nonblank_trimmed_identity(pieces: Seq<Seq<char>>)
    requires
        forall|i: int|
            0 <= i < pieces.len() ==> (#[trigger] pieces[i]).len() > 0 && trim(pieces[i]) == pieces[i],
    ensures
        nonblank_trimmed(pieces) == pieces,
    decreases pieces.len(),
{
    if pieces.len() == 0 {
        reveal(Seq::filter);
        assert(nonblank_trimmed(pieces) =~= pieces);
    } else {
        let init = pieces.drop_last();
        assert forall|i: int| 0 <= i < init.len() implies (#[trigger] init[i]).len() > 0 && trim(init[i]) == init[i] by {
            assert(init[i] == pieces[i]);
        }
        lemma_nonblank_trimmed_identity(init);
        let last = pieces[pieces.len() - 1];
        assert(init.push(last) =~= pieces);
        lemma_nonblank_trimmed_push(init, last);
    }
}

/// Appends `pieces` joined with `sep` to `out`.
pub fn push_joined(out: &mut String, pieces: &Vec<String>, sep: &str)
    requires
        sep@.len() == 1,
    ensures
        final(out)@ == old(out)@ + join(pieces@.map_values(|p: String| p@), sep@[0]),
{
    let ghost all = pieces@.map_values(|p: String| p@);
    let ghost c = sep@[0];
    let n = pieces.len();
    assert(sep@ =~= seq![c]);
    for i in 0..n
        invariant
            n == pieces@.len(),
            all == pieces@.map_values(|p: String| p@),
            sep@ == seq![c],
            out@ == old(out)@ + join(all.take(i as int), c),
    {
        if i > 0 {
            out.append(sep);
        }
        out.append(pieces[i].as_str());
        proof {
            let t = all.take(i + 1);
            assert(t.drop_last() =~= all.take(i as int));
            assert(t.last() == pieces@[i as int]@);
            assert(out@ =~= old(out)@ + join(t, c));
        }
    }
    assert(all.take(n as int) =~= all);
}

/// Every nonblank trimmed piece is not empty and is the trimming of one of
/// the pieces.
pub proof fn lemma_nonblank_trimmed_from(pieces: Seq<Seq<char>>, i: int)
    requires
        0 <= i < nonblank_trimmed(pieces).len(),
    ensures
        nonblank_trimmed(pieces)[i].len() > 0,
        exists|j: int| 0 <= j < pieces.len() && nonblank_trimmed(pieces)[i] == trim(#[trigger] pieces[j]),
    decreases pieces.len(),
{
    if pieces.len() == 0 {
        reveal(Seq::filter);
        assert(false);
    } else {
        let init = pieces.drop_last();
        let last = pieces[pieces.len() - 1];
        assert(init.push(last) =~= pieces);
        lemma_nonblank_trimmed_push(init, last);
        if trim(last).len() > 0 && i == nonblank_trimmed(init).len() {
            assert(nonblank_trimmed(pieces)[i] == trim(pieces[pieces.len() - 1]));
        } else {
            lemma_nonblank_trimmed_from(init, i);
            let j = choose|j: int| 0 <= j < init.len() && nonblank_trimmed(init)[i] == trim(#[trigger] init[j]);
            assert(init[j] == pieces[j]);
        }
    }
}

/// No piece of a split holds the separator.
pub proof fn lemma_split_pieces_exclude(s: Seq<char>, sep: char, j: int)
    requires
        0 <= j < split(s, sep).len(),
    ensures
        !split(s, sep)[j].contains(sep),
        split(s, sep).len() > 0,
    decreases s.len(),
{
    if s.len() > 0 {
        let init = split(s.drop_last(), sep);
        lemma_split_len(s.drop_last(), sep);
        if s.last() == sep {
            if j < init.len() {
                lemma_split_pieces_exclude(s.drop_last(), sep, j);
            } else {
                assert(split(s, sep)[j] =~= Seq::<char>::empty());
            }
        } else {
            lemma_split_pieces_exclude(s.drop_last(), sep, j);
            if j == init.len() - 1 {
                let p = split(s, sep)[j];
                assert(p =~= init[j].push(s.last()));
                if p.contains(sep) {
                    let k = choose|k: int| 0 <= k < p.len() && p[k] == sep;
                    if k < init[j].len() {
                        assert(init[j][k] == sep);
                    }
                }
            } else {
                lemma_split_pieces_exclude(s.drop_last(), sep, j);
            }
        }
    }
}

/// A split has at least one piece.
pub proof fn lemma_split_len(s: Seq<char>, sep: char)
    ensures
        split(s, sep).len() > 0,
    decreases s.len(),
{
    if s.len() > 0 {
        lemma_split_len(s.drop_last(), sep);
    }
}

/// Trimming a text that lacks `c` gives a text that lacks `c`.
pub proof fn lemma_trim_excludes(s: Seq<char>, c: char)
    requires
        !s.contains(c),
    ensures
        !trim_start(s).contains(c),
        !trim(s).contains(c),
{
    lemma_trim_start_excludes(s, c);
    lemma_trim_end_excludes(trim_start(s), c);
}

proof fn lemma_trim_start_excludes(s: Seq<char>, c: char)
    requires
        !s.contains(c),
    ensures
        !trim_start(s).contains(c),
    decreases s.len(),
{
    if s.len() > 0 && is_whitespace(s[0]) {
        assert(!s.drop_first().contains(c)) by {
            if s.drop_first().contains(c) {
                let k = choose|k: int| 0 <= k < s.drop_first().len() && s.drop_first()[k] == c;
                assert(s[k + 1] == c);
            }
        }
        lemma_trim_start_excludes(s.drop_first(), c);
    }
}

proof fn lemma_trim_end_excludes(s: Seq<char>, c: char)
    requires
        !s.contains(c),
    ensures
        !trim_end(s).contains(c),
    decreases s.len(),
{
    if s.len() > 0 && is_whitespace(s.last()) {
        assert(!s.drop_last().contains(c)) by {
            if s.drop_last().contains(c) {
                let k = choose|k: int| 0 <= k < s.drop_last().len() && s.drop_last()[k] == c;
                assert(s[k] == c);
            }
        }
        lemma_trim_end_excludes(s.drop_last(), c);
    }
}

/// Trimming removes all whitespace from the start: what is left is empty
/// or starts with a character that is not whitespace.
proof fn lemma_trim_start_shape(s: Seq<char>)
    ensures
        trim_start(s).len() > 0 ==> !is_whitespace(trim_start(s)[0]),
    decreases s.len(),
{
    if s.len() > 0 && is_whitespace(s[0]) {
        lemma_trim_start_shape(s.drop_first());
    }
}

/// Trimming the end keeps a prefix, and what is left is empty or ends with
/// a character that is not whitespace.
proof fn lemma_trim_end_shape(s: Seq<char>)
    ensures
        trim_end(s) == s.take(trim_end(s).len() as int),
        trim_end(s).len() <= s.len(),
        trim_end(s).len() > 0 ==> !is_whitespace(trim_end(s).last()),
    decreases s.len(),
{
    if s.len() > 0 && is_whitespace(s.last()) {
        lemma_trim_end_shape(s.drop_last());
        assert(s.drop_last().take(trim_end(s).len() as int) =~= s.take(trim_end(s).len() as int));
    } else {
        assert(s.take(s.len() as int) =~= s);
    }
}

/// Trimming twice is trimming once.
pub proof fn lemma_trim_idempotent(s: Seq<char>)
    ensures
        trim(trim(s)) == trim(s),
{
    let u = trim_start(s);
    let v = trim_end(u);
    lemma_trim_start_shape(s);
    lemma_trim_end_shape(u);
    if v.len() > 0 {
        assert(v[0] == u[0]);
        lemma_trimmed_ends(v);
    }
}

/// Appending whitespace to a text adds it to the text's trimmed start, unless
/// the text is all whitespace, in which case both trim to nothing.
pub proof fn lemma_trim_start_push_whitespace(s: Seq<char>, c: char)
    requires
        is_whitespace(c),
    ensures
        trim_start(s.push(c)) == if trim_start(s).len() > 0 {
            trim_start(s).push(c)
        } else {
            Seq::<char>::empty()
        },
    decreases s.len(),
{
    if s.len() == 0 {
        assert(s.push(c).drop_first() =~= Seq::<char>::empty());
        assert(s.push(c)[0] == c);
        assert(trim_start(Seq::<char>::empty()) == Seq::<char>::empty());
        assert(trim_start(s.push(c)) == trim_start(s.push(c).drop_first()));
    } else if is_whitespace(s[0]) {
        assert(s.push(c)[0] == s[0]);
        assert(s.push(c).drop_first() =~= s.drop_first().push(c));
        lemma_trim_start_push_whitespace(s.drop_first(), c);
    } else {
        assert(s.push(c)[0] == s[0]);
    }
}

/// Tells whether every character of `s` is whitespace.
pub open spec fn all_whitespace(s: Seq<char>) -> bool {
    forall|i: int| 0 <= i < s.len() ==> is_whitespace(#[trigger] s[i])
}

/// Appending whitespace to a text appends it to the text's trimmed start,
/// unless the text is all whitespace, in which case both trim to nothing.
pub proof fn lemma_trim_start_append_whitespace(s: Seq<char>, w: Seq<char>)
    requires
        all_whitespace(w),
    ensures
        trim_start(s + w) == if trim_start(s).len() > 0 {
            trim_start(s) + w
        } else {
            Seq::<char>::empty()
        },
    decreases w.len(),
{
    if w.len() == 0 {
        assert(s + w =~= s);
        if trim_start(s).len() == 0 {
            assert(trim_start(s) =~= Seq::<char>::empty());
        } else {
            assert(trim_start(s) + w =~= trim_start(s));
        }
    } else {
        let init = w.drop_last();
        assert(is_whitespace(w[w.len() - 1]));
        lemma_trim_start_append_whitespace(s, init);
        assert(s + w =~= (s + init).push(w.last()));
        lemma_trim_start_push_whitespace(s + init, w.last());
        if trim_start(s).len() > 0 {
            assert((trim_start(s) + init).push(w.last()) =~= trim_start(s) + w);
        }
    }
}

/// Appending whitespace to a text leaves its trimmed end alone.
pub proof fn lemma_trim_end_append_whitespace(s: Seq<char>, w: Seq<char>)
    requires
        all_whitespace(w),
    ensures
        trim_end(s + w) == trim_end(s),
    decreases w.len(),
{
    if w.len() == 0 {
        assert(s + w =~= s);
    } else {
        assert(is_whitespace(w[w.len() - 1]));
        assert((s + w).drop_last() =~= s + w.drop_last());
        assert((s + w).last() == w.last());
        lemma_trim_end_append_whitespace(s, w.drop_last());
    }
}

/// Appending whitespace to a text does not change its trimmed form.
pub proof fn lemma_trim_append_whitespace(s: Seq<char>, w: Seq<char>)
    requires
        all_whitespace(w),
    ensures
        trim(s + w) == trim(s),
{
    lemma_trim_start_append_whitespace(s, w);
    if trim_start(s).len() > 0 {
        lemma_trim_end_append_whitespace(trim_start(s), w);
    } else {
        assert(trim_start(s) =~= Seq::<char>::empty());
    }
}

/// A text is what trimming the end matches keeps, followed by a run of the
/// matched character.
pub proof fn lemma_trim_end_matches_shape(x: Seq<char>, c: char)
    ensures
        trim_end_matches(x, c).len() <= x.len(),
        x == trim_end_matches(x, c) + x.skip(trim_end_matches(x, c).len() as int),
        forall|i: int|
            trim_end_matches(x, c).len() <= i < x.len() ==> #[trigger] x[i] == c,
    decreases x.len(),
{
    if x.len() > 0 && x.last() == c {
        lemma_trim_end_matches_shape(x.drop_last(), c);
        let t = trim_end_matches(x, c);
        let y = x.drop_last();
        assert(y == t + y.skip(t.len() as int));
        assert(x.skip(t.len() as int) =~= y.skip(t.len() as int).push(x.last()));
        assert(x =~= y.push(x.last()));
        assert(x =~= t + x.skip(t.len() as int));
        assert forall|i: int| t.len() <= i < x.len() implies #[trigger] x[i] == c by {
            if i < x.len() - 1 {
                assert(x.drop_last()[i] == x[i]);
            }
        }
    } else {
        assert(x.skip(x.len() as int) =~= Seq::<char>::empty());
        assert(x =~= x + x.skip(x.len() as int));
    }
}

/// Appending whitespace without spaces to a text appends, to what trimming
/// trailing newlines keeps, whitespace without spaces.
pub proof fn lemma_trim_end_matches_append(x: Seq<char>, w: Seq<char>) -> (u: Seq<char>)
    requires
        all_whitespace(w),
        !w.contains(' '),
    ensures
        all_whitespace(u),
        !u.contains(' '),
        trim_end_matches(x + w, '\n') == trim_end_matches(x, '\n') + u,
    decreases w.len(),
{
    if w.len() == 0 {
        assert(x + w =~= x);
        let u = Seq::<char>::empty();
        assert(trim_end_matches(x, '\n') + u =~= trim_end_matches(x, '\n'));
        u
    } else {
        let init = w.drop_last();
        let c = w.last();
        assert(c == w[w.len() - 1]);
        assert(is_whitespace(c) && c != ' ');
        assert(!init.contains(' ')) by {
            if init.contains(' ') {
                let k = choose|k: int| 0 <= k < init.len() && init[k] == ' ';
                assert(w[k] == ' ');
            }
        }
        assert(all_whitespace(init)) by {
            assert forall|i: int| 0 <= i < init.len() implies is_whitespace(#[trigger] init[i]) by {
                assert(init[i] == w[i]);
            }
        }
        assert((x + w).drop_last() =~= x + init);
        assert((x + w).last() == c);
        if c == '\n' {
            lemma_trim_end_matches_append(x, init)
        } else {
            let t = trim_end_matches(x, '\n');
            lemma_trim_end_matches_shape(x, '\n');
            let u = x.skip(t.len() as int) + w;
            assert(x + w =~= t + u);
            assert forall|i: int| 0 <= i < u.len() implies is_whitespace(#[trigger] u[i]) && u[i] != ' ' by {
                if i < x.len() - t.len() {
                    assert(u[i] == x[t.len() + i]);
                } else {
                    assert(u[i] == w[i - (x.len() - t.len())]);
                }
            }
            assert(!u.contains(' '));
            u
        }
    }
}

/// Appending a separator-free text to a text extends the last piece of
/// its split.
pub proof fn lemma_split_extend_last(b: Seq<char>, u: Seq<char>, sep: char)
    requires
        !u.contains(sep),
    ensures
        split(b + u, sep) == split(b, sep).update(
            split(b, sep).len() - 1,
            split(b, sep).last() + u,
        ),
    decreases u.len(),
{
    lemma_split_len(b, sep);
    let p = split(b, sep);
    if u.len() == 0 {
        assert(b + u =~= b);
        assert(p.last() + u =~= p.last());
        assert(p.update(p.len() - 1, p.last() + u) =~= p);
    } else {
        let init = u.drop_last();
        assert(!init.contains(sep)) by {
            if init.contains(sep) {
                let k = choose|k: int| 0 <= k < init.len() && init[k] == sep;
                assert(u[k] == sep);
            }
        }
        assert(u.last() != sep) by {
            assert(u[u.len() - 1] == u.last());
        }
        lemma_split_extend_last(b, init, sep);
        assert((b + u).drop_last() =~= b + init);
        assert((b + u).last() == u.last());
        let q = p.update(p.len() - 1, p.last() + init);
        assert((p.last() + init).push(u.last()) =~= p.last() + u);
        assert(q.update(q.len() - 1, q.last().push(u.last())) =~= p.update(p.len() - 1, p.last() + u));
    }
}

/// Extending the last piece extends the joined text.
pub proof fn lemma_join_extend_last(pieces: Seq<Seq<char>>, sep: char, v: Seq<char>)
    requires
        pieces.len() > 0,
    ensures
        join(pieces.update(pieces.len() - 1, pieces.last() + v), sep) == join(pieces, sep) + v,
{
    let q = pieces.update(pieces.len() - 1, pieces.last() + v);
    if pieces.len() == 1 {
        assert(q[0] == pieces[0] + v);
    } else {
        assert(q.drop_last() =~= pieces.drop_last());
        assert(q.last() == pieces.last() + v);
        assert(join(q, sep) =~= join(pieces, sep) + v);
    }
}

/// Joining the pieces of a split gives back the text.
pub proof fn lemma_join_split(s: Seq<char>, sep: char)
    ensures
        join(split(s, sep), sep) == s,
    decreases s.len(),
{
    if s.len() == 0 {
        assert(split(s, sep) =~= seq![Seq::<char>::empty()]);
        assert(s =~= Seq::<char>::empty());
    } else {
        let init = s.drop_last();
        lemma_join_split(init, sep);
        lemma_split_len(init, sep);
        let p = split(init, sep);
        if s.last() == sep {
            let q = p.push(Seq::<char>::empty());
            assert(q.drop_last() =~= p);
            assert(join(q, sep) =~= join(p, sep) + seq![sep]);
            assert(s =~= init + seq![sep]);
        } else {
            lemma_join_extend_last(p, sep, seq![s.last()]);
            assert(p.last() + seq![s.last()] =~= p.last().push(s.last()));
            assert(s =~= init + seq![s.last()]);
        }
    }
}

/// With at least three pieces, the join is the first two pieces, each
/// followed by the separator, then the join of the rest.
pub proof fn lemma_join_first_two(pieces: Seq<Seq<char>>, sep: char)
    requires
        pieces.len() >= 3,
    ensures
        join(pieces, sep) == pieces[0] + seq![sep] + pieces[1] + seq![sep] + join(pieces.skip(2), sep),
    decreases pieces.len(),
{
    let init = pieces.drop_last();
    let rest = pieces.skip(2);
    if pieces.len() == 3 {
        assert(init.drop_last() =~= seq![pieces[0]]);
        assert(join(seq![pieces[0]], sep) == pieces[0]);
        assert(init.last() == pieces[1]);
        assert(join(init, sep) == pieces[0] + seq![sep] + pieces[1]);
        assert(rest =~= seq![pieces[2]]);
        assert(join(pieces, sep) =~= pieces[0] + seq![sep] + pieces[1] + seq![sep] + join(rest, sep));
    } else {
        lemma_join_first_two(init, sep);
        assert(rest.drop_last() =~= init.skip(2));
        assert(rest.last() == pieces.last());
        assert(join(pieces, sep) =~= pieces[0] + seq![sep] + pieces[1] + seq![sep] + join(rest, sep));
    }
}

/// A numeral has no leading zero: it is `0` itself, or starts with a
/// nonzero digit.
pub proof fn lemma_decimal_no_leading_zero(n: nat)
    ensures
        n == 0 ==> decimal(n) == seq!['0'],
        n > 0 ==> decimal(n)[0] != '0',
    decreases n,
{
    if n >= 10 {
        lemma_decimal_no_leading_zero(n / 10);
        lemma_decimal_digits(n / 10);
        assert(decimal(n)[0] == decimal(n / 10)[0]);
    } else {
        assert(digit_value(digit_char(n)) == n);
        assert(digit_value('0') == 0);
    }
}

/// A digit string that starts with a nonzero digit denotes at least 1.
proof fn lemma_digits_value_positive(s: Seq<char>)
    requires
        s.len() > 0,
        all_digits(s),
        s[0] != '0',
    ensures
        digits_value(s) >= 1,
    decreases s.len(),
{
    if s.len() == 1 {
        assert(s.drop_last() =~= Seq::<char>::empty());
        assert(digits_value(Seq::<char>::empty()) == 0);
        assert(is_digit(s[0]));
        assert(s.last() == s[0]);
    } else {
        let init = s.drop_last();
        assert(all_digits(init)) by {
            assert forall|i: int| 0 <= i < init.len() implies is_digit(#[trigger] init[i]) by {
                assert(init[i] == s[i]);
            }
        }
        assert(init[0] == s[0]);
        lemma_digits_value_positive(init);
    }
}

/// The numeral of `n` is the only digit string without a leading zero that
/// denotes `n`.
pub proof fn lemma_decimal_unique(s: Seq<char>, n: nat)
    requires
        s.len() > 0,
        all_digits(s),
        s.len() == 1 || s[0] != '0',
        digits_value(s) == n,
    ensures
        s == decimal(n),
    decreases s.len(),
{
    let d = s.last();
    assert(d == s[s.len() - 1]);
    assert(is_digit(d));
    assert(digit_char(digit_value(d)) == d);
    if s.len() == 1 {
        assert(s.drop_last() =~= Seq::<char>::empty());
        assert(digits_value(Seq::<char>::empty()) == 0);
        assert(n == digit_value(d));
        assert(s =~= seq![d]);
    } else {
        let init = s.drop_last();
        assert(all_digits(init)) by {
            assert forall|i: int| 0 <= i < init.len() implies is_digit(#[trigger] init[i]) by {
                assert(init[i] == s[i]);
            }
        }
        assert(init[0] == s[0]);
        lemma_digits_value_positive(init);
        let m = digits_value(init);
        assert(n == m * 10 + digit_value(d));
        assert(n / 10 == m && n % 10 == digit_value(d));
        lemma_decimal_unique(init, m);
        assert(s =~= init.push(d));
    }
}

} // verus!
