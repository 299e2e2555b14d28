//! Reading and writing text: the characters of a string, fields between
//! separators, decimal numbers.

use vstd::prelude::*;
use vstd::std_specs::iter::IteratorSpec;

verus! {

/// The characters of a string, one by one.
pub fn chars_of(s: &str) -> (chars: Vec<char>)
    ensures
        chars@ == s@,
{
    broadcast use vstd::string::group_string_axioms;

    let mut chars: Vec<char> = Vec::new();
    let mut it = s.chars();
    loop
        invariant_except_break
            chars@ + it.remaining() == s@,
            it.decrease() is Some,
        ensures
            chars@ == s@,
        decreases it.decrease()->0,
    {
        let ghost before = it.remaining();
        match it.next() {
            Some(c) => {
                chars.push(c);
                assert(chars@ + it.remaining() =~= s@);
            },
            None => {
                assert(chars@ + before =~= chars@);
                break ;
            },
        }
    }
    chars
}

/// The text without the line feeds and carriage returns at its end.
pub open spec fn trim_line_end(s: Seq<char>) -> Seq<char>
    decreases s.len(),
{
    if s.len() > 0 && (s.last() == '\n' || s.last() == '\r') {
        trim_line_end(s.drop_last())
    } else {
        s
    }
}

/// The length of the text without the line feeds and carriage returns at
/// its end.
pub fn trimmed_len(chars: &Vec<char>) -> (end: usize)
    ensures
        end <= chars.len(),
        chars@.take(end as int) == trim_line_end(chars@),
{
    let mut end: usize = chars.len();
    assert(chars@.take(end as int) =~= chars@);
    while end > 0 && (chars[end - 1] == '\n' || chars[end - 1] == '\r')
        invariant
            end <= chars.len(),
            trim_line_end(chars@.take(end as int)) == trim_line_end(chars@),
        decreases end,
    {
        assert(chars@.take(end as int).drop_last() =~= chars@.take(end - 1));
        end = end - 1;
    }
    end
}

/// The position of the first `c` in `s` at or after `from`, or the length
/// of `s` where there is none.
pub open spec fn find_from(s: Seq<char>, c: char, from: int) -> int
    decreases s.len() - from,
{
    if from >= s.len() {
        s.len() as int
    } else if s[from] == c {
        from
    } else {
        find_from(s, c, from + 1)
    }
}

/// The pieces of `s` between occurrences of `c`, the first piece first.
/// With a limit, there are at most that many pieces and the last of them
/// holds the rest of the text, separators included; a limit below one
/// counts as one. A text without the separator is one piece, also when it
/// is empty.
pub open spec fn pieces(s: Seq<char>, c: char, limit: Option<nat>) -> Seq<Seq<char>>
    decreases s.len(),
{
    let p = find_from(s, c, 0);
    if p >= s.len() || p < 0 || (limit matches Some(n) && n <= 1) {
        seq![s]
    } else {
        seq![s.take(p)] + pieces(
            s.skip(p + 1),
            c,
            match limit {
                Some(n) => Some((n - 1) as nat),
                None => None,
            },
        )
    }
}

/// A search ends at the first occurrence at or after its start, or at the
/// end of the text.
pub proof fn lemma_find_from_bounds(s: Seq<char>, c: char, from: int)
    requires
        0 <= from <= s.len(),
    ensures
        from <= find_from(s, c, from) <= s.len(),
        find_from(s, c, from) < s.len() ==> s[find_from(s, c, from)] == c,
        forall|i: int| from <= i < find_from(s, c, from) ==> s[i] != c,
    decreases s.len() - from,
{
    if from < s.len() && s[from] != c {
        lemma_find_from_bounds(s, c, from + 1);
    }
}

/// Searching a part of a text finds what searching the whole text from the
/// start of the part finds, as long as that lies within the part.
pub proof fn lemma_find_in_part(s: Seq<char>, c: char, start: int, end: int, from: int)
    requires
        0 <= start <= from <= end <= s.len(),
    ensures
        find_from(s.subrange(start, end), c, from - start) == (if find_from(s, c, from) < end {
            find_from(s, c, from) - start
        } else {
            end - start
        }),
    decreases end - from,
{
    let part = s.subrange(start, end);
    lemma_find_from_bounds(s, c, from);
    if from < end {
        assert(part[from - start] == s[from]);
        if s[from] != c {
            lemma_find_in_part(s, c, start, end, from + 1);
        }
    }
}

/// The position of the first `c` in `chars` at or after `from` and before
/// `end`, or `end` where there is none.
pub fn find_char(chars: &Vec<char>, c: char, from: usize, end: usize) -> (at: usize)
    requires
        from <= end <= chars.len(),
    ensures
        from <= at <= end,
        at - from == find_from(chars@.subrange(from as int, end as int), c, 0),
{
    let mut at: usize = from;
    proof {
        lemma_find_in_part(chars@, c, from as int, end as int, from as int);
        lemma_find_from_bounds(chars@, c, from as int);
    }
    while at < end && chars[at] != c
        invariant
            from <= at <= end <= chars.len(),
            find_from(chars@, c, from as int) == find_from(chars@, c, at as int),
        decreases end - at,
    {
        at = at + 1;
    }
    proof {
        lemma_find_from_bounds(chars@, c, at as int);
    }
    at
}

/// The texts that ranges of `s` hold.
pub open spec fn cut(s: Seq<char>, ranges: Seq<(usize, usize)>) -> Seq<Seq<char>> {
    Seq::new(ranges.len(), |i: int| s.subrange(ranges[i].0 as int, ranges[i].1 as int))
}

/// Every range lies within the first `end` characters.
pub open spec fn within(ranges: Seq<(usize, usize)>, end: int) -> bool {
    forall|i: int|
        0 <= i < ranges.len() ==> 0 <= (#[trigger] ranges[i]).0 <= ranges[i].1 <= end
}

/// Where the pieces of the characters from `start` to `end` lie, the first
/// piece first.
pub fn split_ranges(
    chars: &Vec<char>,
    start: usize,
    end: usize,
    c: char,
    limit: Option<usize>,
) -> (ranges: Vec<(usize, usize)>)
    requires
        start <= end <= chars.len(),
    ensures
        within(ranges@, end as int),
        ranges.len() >= 1,
        cut(chars@, ranges@) == pieces(
            chars@.subrange(start as int, end as int),
            c,
            match limit {
                Some(n) => Some(n as nat),
                None => None,
            },
        ),
{
    let ghost whole = pieces(
        chars@.subrange(start as int, end as int),
        c,
        match limit {
            Some(n) => Some(n as nat),
            None => None,
        },
    );
    let mut ranges: Vec<(usize, usize)> = Vec::new();
    let mut from: usize = start;
    let mut left: Option<usize> = limit;
    loop
        invariant_except_break
            start <= from <= end <= chars.len(),
            within(ranges@, end as int),
            whole == cut(chars@, ranges@) + pieces(
                chars@.subrange(from as int, end as int),
                c,
                match left {
                    Some(n) => Some(n as nat),
                    None => None,
                },
            ),
        ensures
            within(ranges@, end as int),
            ranges.len() >= 1,
            cut(chars@, ranges@) == whole,
        decreases end - from,
    {
        let ghost rest = chars@.subrange(from as int, end as int);
        let ghost done = cut(chars@, ranges@);
        let at = find_char(chars, c, from, end);
        let last = match left {
            Some(n) => n <= 1,
            None => false,
        };
        if at >= end || last {
            ranges.push((from, end));
            proof {
                assert(cut(chars@, ranges@) =~= done + seq![rest]);
            }
            break ;
        }
        ranges.push((from, at));
        proof {
            assert(rest.take(at - from) =~= chars@.subrange(from as int, at as int));
            assert(rest.skip(at - from + 1) =~= chars@.subrange(at + 1, end as int));
            assert(cut(chars@, ranges@) =~= done + seq![rest.take(at - from)]);
        }
        from = at + 1;
        left =
        match left {
            Some(n) => Some((n - 1) as usize),
            None => None,
        };
    }
    ranges
}

/// The texts that are not empty, in order.
pub open spec fn non_empty(fields: Seq<Seq<char>>) -> Seq<Seq<char>>
    decreases fields.len(),
{
    if fields.len() == 0 {
        fields
    } else if fields.last().len() == 0 {
        non_empty(fields.drop_last())
    } else {
        non_empty(fields.drop_last()).push(fields.last())
    }
}

/// The character of a decimal digit.
pub open spec fn digit_char(d: nat) -> char {
    if d == 0 {
        '0'
    } else if d == 1 {
        '1'
    } else if d == 2 {
        '2'
    } else if d == 3 {
        '3'
    } else if d == 4 {
        '4'
    } else if d == 5 {
        '5'
    } else if d == 6 {
        '6'
    } else if d == 7 {
        '7'
    } else if d == 8 {
        '8'
    } else {
        '9'
    }
}

/// A number in decimal, without leading zeros.
pub open spec fn decimal(n: nat) -> Seq<char>
    decreases n,
{
    if n < 10 {
        seq![digit_char(n)]
    } else {
        decimal(n / 10).push(digit_char(n % 10))
    }
}

fn digit_text(d: u64) -> (text: &'static str)
    requires
        d < 10,
    ensures
        text@ == seq![digit_char(d as nat)],
{
    proof {
        reveal_strlit("0");
        reveal_strlit("1");
        reveal_strlit("2");
        reveal_strlit("3");
        reveal_strlit("4");
        reveal_strlit("5");
        reveal_strlit("6");
        reveal_strlit("7");
        reveal_strlit("8");
        reveal_strlit("9");
    }
    let text = if d == 0 {
        "0"
    } else if d == 1 {
        "1"
    } else if d == 2 {
        "2"
    } else if d == 3 {
        "3"
    } else if d == 4 {
        "4"
    } else if d == 5 {
        "5"
    } else if d == 6 {
        "6"
    } else if d == 7 {
        "7"
    } else if d == 8 {
        "8"
    } else {
        "9"
    };
    assert(text@ =~= seq![digit_char(d as nat)]);
    text
}

/// Appends a number in decimal to a text.
pub fn push_decimal(out: &mut String, n: u64)
    ensures
        final(out)@ == old(out)@ + decimal(n as nat),
    decreases n,
{
    if n >= 10 {
        push_decimal(out, n / 10);
    }
    let ghost before = out@;
    out.append(digit_text(n % 10));
    proof {
        if n >= 10 {
            assert(out@ =~= old(out)@ + decimal(n as nat));
        } else {
            assert(out@ =~= old(out)@ + decimal(n as nat));
        }
    }
}

/// Why a text writes no number.
#[derive(Debug, Clone, Copy, PartialEq, Eq, Structural)]
pub enum NumberError {
    /// The text is empty.
    Empty,
    /// The text holds something else than decimal digits after an optional
    /// plus sign, or nothing after the sign.
    InvalidDigit,
    /// The number does not fit in the type that is asked for.
    TooLarge,
}

/// The value of a decimal digit.
pub open spec fn digit_value(c: char) -> nat {
    (c as u32 - '0' as u32) as nat
}

/// The number that decimal digits write, read from the left, as long as it
/// is at most `max`. What goes wrong first decides the error.
pub open spec fn scan_digits(s: Seq<char>, max: nat) -> Result<nat, NumberError>
    decreases s.len(),
{
    if s.len() == 0 {
        Ok(0nat)
    } else {
        match scan_digits(s.drop_last(), max) {
            Err(e) => Err(e),
            Ok(n) => if !('0' <= s.last() <= '9') {
                Err(NumberError::InvalidDigit)
            } else if n * 10 + digit_value(s.last()) > max {
                Err(NumberError::TooLarge)
            } else {
                Ok(n * 10 + digit_value(s.last()))
            },
        }
    }
}

/// The digits of a number text: the text without a plus sign at its start.
pub open spec fn unsigned_digits(s: Seq<char>) -> Seq<char> {
    if s.len() > 0 && s[0] == '+' {
        s.skip(1)
    } else {
        s
    }
}

/// The number that a text writes, where it writes one that is at most
/// `max`: an optional plus sign, then one or more decimal digits and
/// nothing else.
pub open spec fn number_of(s: Seq<char>, max: nat) -> Result<nat, NumberError> {
    if s.len() == 0 {
        Err(NumberError::Empty)
    } else if unsigned_digits(s).len() == 0 {
        Err(NumberError::InvalidDigit)
    } else {
        scan_digits(unsigned_digits(s), max)
    }
}

/// The number that a text writes, where it writes one that is at most
/// `max`.
pub open spec fn parse_unsigned(s: Seq<char>, max: nat) -> Option<nat> {
    match number_of(s, max) {
        Ok(n) => Some(n),
        Err(_) => None,
    }
}

/// Reads the number that the characters from `start` to `end` write, where
/// they write one that is at most `max`.
pub fn parse_number(chars: &Vec<char>, start: usize, end: usize, max: u64) -> (value: Result<
    u64,
    NumberError,
>)
    requires
        start <= end <= chars.len(),
    ensures
        value matches Ok(n) ==> number_of(chars@.subrange(start as int, end as int), max as nat)
            == Ok::<nat, NumberError>(n as nat),
        value matches Err(e) ==> number_of(chars@.subrange(start as int, end as int), max as nat)
            == Err::<nat, NumberError>(e),
{
    let ghost text = chars@.subrange(start as int, end as int);
    if start == end {
        return Err(NumberError::Empty);
    }
    assert(text[0] == chars@[start as int]);
    let first: usize = if chars[start] == '+' {
        start + 1
    } else {
        start
    };
    let ghost body = unsigned_digits(text);
    assert(body =~= chars@.subrange(first as int, end as int));
    if first == end {
        return Err(NumberError::InvalidDigit);
    }
    let mut total: u64 = 0;
    let mut i: usize = first;
    assert(body.take(0) =~= Seq::<char>::empty());
    while i < end
        invariant
            start <= first <= i <= end <= chars.len(),
            first < end,
            start < end,
            text == chars@.subrange(start as int, end as int),
            body == chars@.subrange(first as int, end as int),
            body == unsigned_digits(text),
            total <= max,
            scan_digits(body.take(i - first), max as nat) == Ok::<nat, NumberError>(total as nat),
        decreases end - i,
    {
        let c: char = chars[i];
        proof {
            assert(body[i - first] == c);
            assert(body.take(i - first + 1).drop_last() =~= body.take(i - first));
            assert(body.take(i - first + 1).last() == c);
        }
        if c < '0' || c > '9' {
            proof {
                lemma_scan_error_stays(body, i - first + 1, max as nat);
            }
            return Err(NumberError::InvalidDigit);
        }
        let d: u64 = (c as u32 - '0' as u32) as u64;
        if max < d || total > (max - d) / 10 {
            proof {
                lemma_scan_error_stays(body, i - first + 1, max as nat);
            }
            return Err(NumberError::TooLarge);
        }
        total = total * 10 + d;
        i = i + 1;
    }
    proof {
        assert(body.take(end - first) =~= body);
    }
    Ok(total)
}

/// An error in the first `n` digits is the error of the whole text.
pub proof fn lemma_scan_error_stays(s: Seq<char>, n: int, max: nat)
    requires
        0 <= n <= s.len(),
        scan_digits(s.take(n), max) is Err,
    ensures
        scan_digits(s, max) == scan_digits(s.take(n), max),
    decreases s.len() - n,
{
    if n < s.len() {
        assert(s.take(n + 1).drop_last() =~= s.take(n));
        lemma_scan_error_stays(s, n + 1, max);
    } else {
        assert(s.take(n) =~= s);
    }
}

/// Reads the number that the characters from `start` to `end` write, where
/// they write one that fits in 64 bits.
pub fn parse_u64(chars: &Vec<char>, start: usize, end: usize) -> (value: Option<u64>)
    requires
        start <= end <= chars.len(),
    ensures
        value matches Some(n) ==> parse_unsigned(
            chars@.subrange(start as int, end as int),
            u64::MAX as nat,
        ) == Some(n as nat),
        value is None ==> parse_unsigned(
            chars@.subrange(start as int, end as int),
            u64::MAX as nat,
        ) is None,
{
    match parse_number(chars, start, end, u64::MAX) {
        Ok(n) => Some(n),
        Err(_) => None,
    }
}

} // verus!
