//! Response headers as the host hands them over: one block of text with a
//! line for each header, the lines parted by a carriage return and a line
//! feed, and in each line a colon between key and value.

use vstd::prelude::*;
use vstd::std_specs::iter::IteratorSpec;
use vstd::string::StrSliceExecFns;

verus! {

/// Whether `c` is white space: one of the characters that Unicode counts as
/// White_Space.
pub open spec fn is_space(c: char) -> bool {
    let n = c as u32;
    ||| 0x09 <= n <= 0x0D
    ||| n == 0x20
    ||| n == 0x85
    ||| n == 0xA0
    ||| n == 0x1680
    ||| 0x2000 <= n <= 0x200A
    ||| n == 0x2028
    ||| n == 0x2029
    ||| n == 0x202F
    ||| n == 0x205F
    ||| n == 0x3000
}

/// Where the line that begins at `from` ends: at the first carriage return
/// at or after `from` that a line feed follows, or at the end of the text.
pub open spec fn line_end(s: Seq<char>, from: int) -> int
    decreases s.len() - from,
{
    if from < 0 || from + 1 >= s.len() {
        s.len() as int
    } else if s[from] == '\r' && s[from + 1] == '\n' {
        from
    } else {
        line_end(s, from + 1)
    }
}

/// Where the first colon between `from` and `to` stands, or `to` where there
/// is none.
pub open spec fn colon_at(s: Seq<char>, from: int, to: int) -> int
    decreases to - from,
{
    if from >= to {
        to
    } else if s[from] == ':' {
        from
    } else {
        colon_at(s, from + 1, to)
    }
}

/// Where the first character between `from` and `to` stands that is not
/// white space, or `to` where there is none.
pub open spec fn trim_start_at(s: Seq<char>, from: int, to: int) -> int
    decreases to - from,
{
    if from >= to {
        to
    } else if !is_space(s[from]) {
        from
    } else {
        trim_start_at(s, from + 1, to)
    }
}

/// The place behind the last character between `from` and `to` that is not
/// white space, or `from` where there is none.
pub open spec fn trim_end_at(s: Seq<char>, from: int, to: int) -> int
    decreases to - from,
{
    if from >= to {
        from
    } else if !is_space(s[to - 1]) {
        to
    } else {
        trim_end_at(s, from, to - 1)
    }
}

/// The text between `from` and `to` without the white space at its start and
/// at its end.
pub open spec fn trimmed(s: Seq<char>, from: int, to: int) -> Seq<char> {
    let start = trim_start_at(s, from, to);
    s.subrange(start, trim_end_at(s, start, to))
}

/// The header in the line between `from` and `to`: what stands before the
/// first colon is the key, what stands behind it is the value, both without
/// the white space around them. A line without a colon holds no header.
pub open spec fn header_in(s: Seq<char>, from: int, to: int) -> Option<(Seq<char>, Seq<char>)> {
    let colon = colon_at(s, from, to);
    if colon < to {
        Some((trimmed(s, from, colon), trimmed(s, colon + 1, to)))
    } else {
        None
    }
}

/// The end of a line is not before its start, and not behind the text.
pub proof fn lemma_line_end_bounds(s: Seq<char>, from: int)
    requires
        0 <= from <= s.len(),
    ensures
        from <= line_end(s, from) <= s.len(),
        line_end(s, from) < s.len() ==> line_end(s, from) + 2 <= s.len(),
    decreases s.len() - from,
{
    if from + 1 < s.len() && !(s[from] == '\r' && s[from + 1] == '\n') {
        lemma_line_end_bounds(s, from + 1);
    }
}

/// A line ends where the first carriage return with a line feed behind it
/// stands, and holds no such pair.
pub proof fn law_line_end(s: Seq<char>, from: int)
    requires
        0 <= from <= s.len(),
    ensures
        from <= line_end(s, from) <= s.len(),
        line_end(s, from) < s.len() ==> line_end(s, from) + 1 < s.len() && s[line_end(s, from)]
            == '\r' && s[line_end(s, from) + 1] == '\n',
        forall|i: int|
            from <= i < line_end(s, from) && i + 1 < s.len() ==> !(#[trigger] s[i] == '\r' && s[i
                + 1] == '\n'),
    decreases s.len() - from,
{
    if from + 1 < s.len() && !(s[from] == '\r' && s[from + 1] == '\n') {
        law_line_end(s, from + 1);
    }
}

/// The key of a header holds no colon: the colon that parts key and value is
/// the first of the line.
pub proof fn law_colon_at(s: Seq<char>, from: int, to: int)
    requires
        0 <= from <= to <= s.len(),
    ensures
        from <= colon_at(s, from, to) <= to,
        colon_at(s, from, to) < to ==> s[colon_at(s, from, to)] == ':',
        forall|i: int| from <= i < colon_at(s, from, to) ==> #[trigger] s[i] != ':',
    decreases to - from,
{
    if from < to && s[from] != ':' {
        law_colon_at(s, from + 1, to);
    }
}

/// Trimming takes off white space and nothing else: what is cut off at
/// either end is white space, and what stays neither begins nor ends with
/// white space.
pub proof fn law_trimmed(s: Seq<char>, from: int, to: int)
    requires
        0 <= from <= to <= s.len(),
    ensures
        ({
            let start = trim_start_at(s, from, to);
            let end = trim_end_at(s, start, to);
            &&& from <= start <= end <= to
            &&& trimmed(s, from, to) == s.subrange(start, end)
            &&& forall|i: int| from <= i < start ==> is_space(#[trigger] s[i])
            &&& forall|i: int| end <= i < to ==> is_space(#[trigger] s[i])
            &&& start < end ==> !is_space(s[start]) && !is_space(s[end - 1])
        }),
{
    lemma_trim_start(s, from, to);
    lemma_trim_end(s, trim_start_at(s, from, to), to);
}

/// What stands before the start of the trimmed text is white space.
proof fn lemma_trim_start(s: Seq<char>, from: int, to: int)
    requires
        0 <= from <= to <= s.len(),
    ensures
        from <= trim_start_at(s, from, to) <= to,
        trim_start_at(s, from, to) < to ==> !is_space(s[trim_start_at(s, from, to)]),
        forall|i: int| from <= i < trim_start_at(s, from, to) ==> is_space(#[trigger] s[i]),
    decreases to - from,
{
    if from < to && is_space(s[from]) {
        lemma_trim_start(s, from + 1, to);
    }
}

/// What stands behind the end of the trimmed text is white space.
proof fn lemma_trim_end(s: Seq<char>, from: int, to: int)
    requires
        0 <= from <= to <= s.len(),
    ensures
        from <= trim_end_at(s, from, to) <= to,
        from < trim_end_at(s, from, to) ==> !is_space(s[trim_end_at(s, from, to) - 1]),
        forall|i: int| trim_end_at(s, from, to) <= i < to ==> is_space(#[trigger] s[i]),
    decreases to - from,
{
    if from < to && is_space(s[to - 1]) {
        lemma_trim_end(s, from, to - 1);
    }
}

/// The headers in the lines of the text from `from` on, in order.
pub open spec fn headers_from(s: Seq<char>, from: int) -> Seq<(Seq<char>, Seq<char>)>
    decreases s.len() - from,
{
    if from < 0 || from > s.len() {
        Seq::empty()
    } else {
        let end = line_end(s, from);
        let rest = if end >= s.len() {
            Seq::empty()
        } else {
            proof {
                lemma_line_end_bounds(s, from);
            }
            headers_from(s, end + 2)
        };
        match header_in(s, from, end) {
            Some(header) => seq![header] + rest,
            None => rest,
        }
    }
}

/// The headers of a block of text, in order.
pub open spec fn headers_of(s: Seq<char>) -> Seq<(Seq<char>, Seq<char>)> {
    headers_from(s, 0)
}

/// The keys and values of a sequence of headers, as plain text.
pub open spec fn header_texts(headers: Seq<(&str, &str)>) -> Seq<(Seq<char>, Seq<char>)> {
    Seq::new(headers.len(), |i: int| (headers[i].0@, headers[i].1@))
}

/// Whether `c` is white space.
pub fn is_whitespace(c: char) -> (b: bool)
    ensures
        b == is_space(c),
{
    let n = c as u32;
    (0x09 <= n && n <= 0x0D) || n == 0x20 || n == 0x85 || n == 0xA0 || n == 0x1680 || (0x2000 <= n
        && n <= 0x200A) || n == 0x2028 || n == 0x2029 || n == 0x202F || n == 0x205F || n
        == 0x3000
}

/// The characters of `text`, in order.
pub fn chars_of(text: &str) -> (chars: Vec<char>)
    ensures
        chars@ == text@,
{
    broadcast use vstd::string::group_string_axioms;

    let mut chars: Vec<char> = Vec::new();
    let mut iter = text.chars();
    loop
        invariant
            chars@ + iter.remaining() == text@,
            iter.decrease() is Some,
        decreases iter.decrease()->0,
    {
        match iter.next() {
            Some(c) => {
                chars.push(c);
                assert(chars@ + iter.remaining() =~= text@);
            },
            None => {
                assert(chars@ =~= text@);
                return chars;
            },
        }
    }
}

/// Finds where the line that begins at `from` ends.
pub fn find_line_end(chars: &Vec<char>, from: usize) -> (end: usize)
    requires
        from <= chars@.len(),
    ensures
        end == line_end(chars@, from as int),
        from <= end <= chars@.len(),
        end < chars@.len() ==> end + 2 <= chars@.len(),
{
    let mut at = from;
    while at < chars.len() && chars.len() - at >= 2
        invariant
            from <= at <= chars@.len(),
            line_end(chars@, from as int) == line_end(chars@, at as int),
        decreases chars@.len() - at,
    {
        if chars[at] == '\r' && chars[at + 1] == '\n' {
            return at;
        }
        at += 1;
    }
    chars.len()
}

/// Finds the first colon between `from` and `to`.
pub fn find_colon(chars: &Vec<char>, from: usize, to: usize) -> (colon: usize)
    requires
        from <= to <= chars@.len(),
    ensures
        colon == colon_at(chars@, from as int, to as int),
        from <= colon <= to,
{
    let mut at = from;
    while at < to
        invariant
            from <= at <= to <= chars@.len(),
            colon_at(chars@, from as int, to as int) == colon_at(chars@, at as int, to as int),
        decreases to - at,
    {
        if chars[at] == ':' {
            return at;
        }
        at += 1;
    }
    to
}

/// Finds what is left of the text between `from` and `to` once the white
/// space at its start and at its end is taken off.
pub fn trim_range(chars: &Vec<char>, from: usize, to: usize) -> (range: (usize, usize))
    requires
        from <= to <= chars@.len(),
    ensures
        range.0 == trim_start_at(chars@, from as int, to as int),
        range.1 == trim_end_at(chars@, range.0 as int, to as int),
        from <= range.0 <= range.1 <= to,
        chars@.subrange(range.0 as int, range.1 as int) == trimmed(
            chars@,
            from as int,
            to as int,
        ),
{
    let mut start = from;
    while start < to && is_whitespace(chars[start])
        invariant
            from <= start <= to <= chars@.len(),
            trim_start_at(chars@, from as int, to as int) == trim_start_at(
                chars@,
                start as int,
                to as int,
            ),
        decreases to - start,
    {
        start += 1;
    }
    let mut end = to;
    while start < end && is_whitespace(chars[end - 1])
        invariant
            start <= end <= to <= chars@.len(),
            trim_end_at(chars@, start as int, to as int) == trim_end_at(
                chars@,
                start as int,
                end as int,
            ),
        decreases end - start,
    {
        end -= 1;
    }
    (start, end)
}

/// Reads the headers out of the block of text in which the host hands them
/// over. Each line with a colon gives one header; lines without one are
/// passed over.
pub fn parse_headers<'a>(text: &'a str) -> (headers: Vec<(&'a str, &'a str)>)
    ensures
        header_texts(headers@) == headers_of(text@),
{
    let chars = chars_of(text);
    let mut headers: Vec<(&'a str, &'a str)> = Vec::new();
    let mut from: usize = 0;
    let mut done = false;
    proof {
        assert(header_texts(headers@) + headers_from(text@, 0) =~= headers_of(text@));
    }
    while !done
        invariant
            chars@ == text@,
            from <= chars@.len(),
            !done ==> header_texts(headers@) + headers_from(text@, from as int) == headers_of(
                text@,
            ),
            done ==> header_texts(headers@) == headers_of(text@),
        decreases
                if done {
                    0
                } else {
                    chars@.len() - from + 1
                },
    {
        let ghost read = header_texts(headers@);
        let end = find_line_end(&chars, from);
        let colon = find_colon(&chars, from, end);
        if colon < end {
            let key = trim_range(&chars, from, colon);
            let value = trim_range(&chars, colon + 1, end);
            headers.push(
                (text.substring_char(key.0, key.1), text.substring_char(value.0, value.1)),
            );
            proof {
                let header = header_in(text@, from as int, end as int)->0;
                assert(header_texts(headers@) =~= read + seq![header]);
            }
        }
        proof {
            let rest = if end >= chars@.len() {
                Seq::empty()
            } else {
                headers_from(text@, end + 2)
            };
            assert(header_texts(headers@) + rest =~= read + headers_from(text@, from as int));
            if end >= chars@.len() {
                assert(header_texts(headers@) + rest =~= header_texts(headers@));
            }
        }
        if end >= chars.len() {
            done = true;
        } else {
            from = end + 2;
        }
    }
    headers
}

} // verus!
