//! Text as sequences of characters: comparison, trimming, lines, and UTF-8 offsets.

use vstd::prelude::*;
use vstd::utf8::*;

verus! {

/// Whether two strings are equal.
pub(crate) fn same_text(a: &str, b: &str) -> (r: bool)
    ensures
        r == (a@ == b@),
{
    let (cs, ds): (Vec<char>, Vec<char>) = (chars_of(a), chars_of(b));
    if cs.len() != ds.len() {
        return false;
    }
    let mut i: usize = 0;
    while i < cs.len()
        invariant
            cs@ == a@,
            ds@ == b@,
            i <= cs@.len() == ds@.len(),
            forall|j: int| 0 <= j < i ==> cs@[j] == ds@[j],
        decreases cs@.len() - i,
    {
        if cs[i] != ds[i] {
            return false;
        }
        i = i + 1;
    }
    proof {
        assert(a@ =~= b@);
    }
    true
}

/// What the decoder says of bytes that are not valid UTF-8.
pub uninterp spec fn utf8_complaint(bytes: Seq<u8>) -> Seq<char>;

/// Decodes UTF-8.
///
/// This is `String::from_utf8`: it succeeds exactly on valid UTF-8 and then gives the characters
/// that the bytes encode. The text of the error is a function of the bytes alone.
#[verifier::external_body]
pub(crate) fn decode(bytes: Vec<u8>) -> (r: Result<String, String>)
    ensures
        r is Ok <==> valid_utf8(bytes@),
        r is Ok ==> r->Ok_0@ == decode_utf8(bytes@),
        r is Err ==> r->Err_0@ == utf8_complaint(bytes@),
{
    String::from_utf8(bytes).map_err(|e| e.to_string())
}

/// The characters of a string.
pub fn chars_of(s: &str) -> (v: Vec<char>)
    ensures
        v@ == s@,
{
    let mut v: Vec<char> = Vec::new();
    for c in it: s.chars()
        invariant
            v@ == s@.take(it.index() as int),
            it.seq() == s@,
    {
        proof {
            assert(s@.take(it.index() as int).push(c) == s@.take(it.index() as int + 1));
        }
        v.push(c);
    }
    proof {
        assert(s@.take(s@.len() as int) == s@);
    }
    v
}

/// The concatenation of two strings.
pub fn joined(a: &str, b: &str) -> (r: String)
    ensures
        r@ == a@ + b@,
{
    let mut r: String = a.to_string();
    r.append(b);
    r
}

/// The characters with Unicode's `White_Space` property.
pub open spec fn is_white_space(c: char) -> bool {
    let u = c as u32;
    ||| 0x09 <= u <= 0x0d
    ||| u == 0x20
    ||| u == 0x85
    ||| u == 0xa0
    ||| u == 0x1680
    ||| 0x2000 <= u <= 0x200a
    ||| u == 0x2028
    ||| u == 0x2029
    ||| u == 0x202f
    ||| u == 0x205f
    ||| u == 0x3000
}

pub fn white_space(c: char) -> (r: bool)
    ensures
        r == is_white_space(c),
{
    let u: u32 = c as u32;
    (0x09 <= u && u <= 0x0d) || u == 0x20 || u == 0x85 || u == 0xa0 || u == 0x1680 || (0x2000 <= u
        && u <= 0x200a) || u == 0x2028 || u == 0x2029 || u == 0x202f || u == 0x205f || u == 0x3000
}

/// The text without its trailing white space.
pub open spec fn end_trimmed(s: Seq<char>) -> Seq<char>
    decreases s.len(),
{
    if s.len() > 0 && is_white_space(s.last()) {
        end_trimmed(s.drop_last())
    } else {
        s
    }
}

/// The text without its leading white space.
pub open spec fn start_trimmed(s: Seq<char>) -> Seq<char>
    decreases s.len(),
{
    if s.len() > 0 && is_white_space(s[0]) {
        start_trimmed(s.drop_first())
    } else {
        s
    }
}

/// The text without leading and trailing white space.
pub open spec fn trimmed(s: Seq<char>) -> Seq<char> {
    end_trimmed(start_trimmed(s))
}

/// The string without its trailing white space.
pub fn trim_end<'a>(s: &'a str) -> (r: &'a str)
    ensures
        r@ == end_trimmed(s@),
{
    let cs: Vec<char> = chars_of(s);
    let mut end: usize = cs.len();
    proof {
        assert(s@.take(end as int) == s@);
    }
    while end > 0 && white_space(cs[end - 1])
        invariant
            end <= cs.len(),
            cs@ == s@,
            end_trimmed(s@.take(end as int)) == end_trimmed(s@),
        decreases end,
    {
        proof {
            assert(s@.take(end as int).drop_last() == s@.take(end - 1));
        }
        end = end - 1;
    }
    proof {
        assert(s@.subrange(0, end as int) == s@.take(end as int));
    }
    s.substring_char(0, end)
}

/// The string without leading and trailing white space.
pub fn trim<'a>(s: &'a str) -> (r: &'a str)
    ensures
        r@ == trimmed(s@),
{
    let cs: Vec<char> = chars_of(s);
    let mut start: usize = 0;
    proof {
        assert(s@.skip(0) == s@);
    }
    while start < cs.len() && white_space(cs[start])
        invariant
            start <= cs.len(),
            cs@ == s@,
            start_trimmed(s@.skip(start as int)) == start_trimmed(s@),
        decreases cs.len() - start,
    {
        proof {
            assert(s@.skip(start as int).drop_first() == s@.skip(start + 1));
        }
        start = start + 1;
    }
    proof {
        assert(s@.subrange(start as int, s@.len() as int) == s@.skip(start as int));
    }
    trim_end(s.substring_char(start, cs.len()))
}

/// The decimal numeral of a number.
pub open spec fn decimal(n: nat) -> Seq<char>
    decreases n,
{
    if n < 10 {
        seq![(48 + n) as char]
    } else {
        decimal(n / 10).push((48 + n % 10) as char)
    }
}

fn digit(n: u32) -> (r: &'static str)
    requires
        n < 10,
    ensures
        r@ == decimal(n as nat),
{
    proof {
        reveal_strlit("0");
        reveal_strlit("1");
        reveal_strlit("2");
        reveal_strlit("3");
        reveal_strlit("4");
        reveal_strlit("5");
        reveal_strlit("6");
        reveal_strlit("7");
        reveal_strlit("8");
        reveal_strlit("9");
    }
    match n {
        0 => "0",
        1 => "1",
        2 => "2",
        3 => "3",
        4 => "4",
        5 => "5",
        6 => "6",
        7 => "7",
        8 => "8",
        _ => "9",
    }
}

/// The decimal numeral of a number.
pub fn numeral(n: u32) -> (r: String)
    ensures
        r@ == decimal(n as nat),
    decreases n,
{
    if n < 10 {
        digit(n).to_string()
    } else {
        let mut r: String = numeral(n / 10);
        r.append(digit(n % 10));
        proof {
            assert(r@ =~= decimal(n as nat));
        }
        r
    }
}

/// Where the first line of the text ends: the offset of the first line feed, or the length.
pub open spec fn line_end(s: Seq<char>) -> nat
    decreases s.len(),
{
    if s.len() == 0 || s[0] == '\n' {
        0
    } else {
        1 + line_end(s.drop_first())
    }
}

/// A line without the carriage return its line feed was preceded by.
pub open spec fn without_return(line: Seq<char>) -> Seq<char> {
    if line.len() > 0 && line.last() == '\r' {
        line.drop_last()
    } else {
        line
    }
}

/// The lines of the text: a line ends at a line feed, a carriage return before it is not part
/// of the line, and the last line needs no line feed.
pub open spec fn lines_of(s: Seq<char>) -> Seq<Seq<char>>
    decreases s.len(),
{
    let end = line_end(s) as int;
    if s.len() == 0 {
        seq![]
    } else if end >= s.len() {
        seq![s]
    } else {
        seq![without_return(s.take(end))] + lines_of(s.skip(end + 1))
    }
}

/// The length of the longest line.
pub open spec fn longest(lines: Seq<Seq<char>>) -> nat
    decreases lines.len(),
{
    if lines.len() == 0 {
        0
    } else if lines[0].len() >= longest(lines.drop_first()) {
        lines[0].len()
    } else {
        longest(lines.drop_first())
    }
}

proof fn lemma_line_end_is(s: Seq<char>, end: int)
    requires
        0 <= end <= s.len(),
        end < s.len() ==> s[end] == '\n',
        forall|i: int| 0 <= i < end ==> s[i] != '\n',
    ensures
        line_end(s) == end,
    decreases s.len(),
{
    if end > 0 {
        assert(s.drop_first().len() == s.len() - 1);
        lemma_line_end_is(s.drop_first(), end - 1);
    }
}

/// There are no more lines than characters, and no line is longer than the text.
pub proof fn lemma_lines_fit(s: Seq<char>)
    ensures
        lines_of(s).len() <= s.len(),
        longest(lines_of(s)) <= s.len(),
    decreases s.len(),
{
    let end = line_end(s) as int;
    if s.len() > 0 && end < s.len() {
        lemma_lines_fit(s.skip(end + 1));
        let first = without_return(s.take(end));
        let rest = lines_of(s.skip(end + 1));
        let lines = lines_of(s);
        assert(lines.drop_first() =~= rest);
        assert(lines[0] == first);
        assert(first.len() <= end);
        assert(longest(lines.drop_first()) == longest(rest));
    } else if s.len() > 0 {
        let lines = lines_of(s);
        assert(lines.drop_first() =~= Seq::empty());
        assert(longest(lines.drop_first()) == 0);
        assert(lines[0] == s);
    }
}

/// Number of lines and the width in characters of the longest one, both at least 1.
pub fn text_extent(s: &str) -> (r: (usize, usize))
    ensures
        r.0 == (if lines_of(s@).len() == 0 { 1 } else { lines_of(s@).len() }),
        r.1 == (if longest(lines_of(s@)) == 0 { 1 } else { longest(lines_of(s@)) }),
{
    let cs: Vec<char> = chars_of(s);
    let mut lines: usize = 0;
    let mut widest: usize = 0;
    let mut start: usize = 0;
    proof {
        assert(s@.skip(0) == s@);
    }
    while start < cs.len()
        invariant
            cs@ == s@,
            start <= cs.len(),
            lines <= start,
            lines + lines_of(s@.skip(start as int)).len() == lines_of(s@).len(),
            longest(lines_of(s@)) == (if widest >= longest(lines_of(s@.skip(start as int))) {
                widest as nat
            } else {
                longest(lines_of(s@.skip(start as int)))
            }),
        decreases cs.len() - start,
    {
        let mut end: usize = start;
        while end < cs.len() && cs[end] != '\n'
            invariant
                start <= end <= cs.len(),
                forall|i: int| start <= i < end ==> cs@[i] != '\n',
            decreases cs.len() - end,
        {
            end = end + 1;
        }
        let ghost rest = s@.skip(start as int);
        proof {
            lemma_line_end_is(rest, end - start);
        }
        let width: usize = if end < cs.len() && end > start && cs[end - 1] == '\r' {
            end - start - 1
        } else {
            end - start
        };
        proof {
            if end < cs.len() {
                let line = without_return(rest.take(end - start));
                let tail = lines_of(rest.skip(end - start + 1));
                assert(line.len() == width);
                assert(rest.skip(end - start + 1) == s@.skip(end + 1));
                assert((seq![line] + tail).drop_first() == tail);
                assert((seq![line] + tail)[0] == line);
            } else {
                assert(seq![rest].drop_first() == Seq::<Seq<char>>::empty());
                assert(s@.skip(s@.len() as int) == Seq::<char>::empty());
            }
        }
        lines = lines + 1;
        if width > widest {
            widest = width;
        }
        start = if end < cs.len() { end + 1 } else { end };
    }
    proof {
        assert(s@.skip(start as int) == Seq::<char>::empty());
    }
    (if lines == 0 { 1 } else { lines }, if widest == 0 { 1 } else { widest })
}

/// How many bytes the text takes in UTF-8.
pub open spec fn utf8_len(s: Seq<char>) -> nat {
    encode_utf8(s).len()
}

/// How many bytes the character takes in UTF-8.
pub open spec fn utf8_width(c: char) -> nat {
    encode_scalar(c as u32).len()
}

/// The text's encoding is the concatenation of the encodings of its parts.
pub proof fn lemma_encode_concat(a: Seq<char>, b: Seq<char>)
    ensures
        encode_utf8(a + b) == encode_utf8(a) + encode_utf8(b),
    decreases a.len(),
{
    if a.len() == 0 {
        assert(a + b == b);
        assert(encode_utf8(a) + encode_utf8(b) == encode_utf8(b));
    } else {
        assert((a + b).drop_first() == a.drop_first() + b);
        lemma_encode_concat(a.drop_first(), b);
        assert(encode_scalar(a[0] as u32) + (encode_utf8(a.drop_first()) + encode_utf8(b)) == (
        encode_scalar(a[0] as u32) + encode_utf8(a.drop_first())) + encode_utf8(b));
    }
}

/// Taking one more character adds that character's bytes.
pub proof fn lemma_utf8_len_step(s: Seq<char>, n: int)
    requires
        0 <= n < s.len(),
    ensures
        utf8_len(s.take(n + 1)) == utf8_len(s.take(n)) + utf8_width(s[n]),
        utf8_len(s.take(n + 1)) <= utf8_len(s),
        1 <= utf8_width(s[n]) <= 4,
{
    let one = seq![s[n]];
    assert(s.take(n + 1) == s.take(n) + one);
    lemma_encode_concat(s.take(n), one);
    assert(one.drop_first() == Seq::<char>::empty());
    assert(encode_utf8(one) == encode_scalar(one[0] as u32) + encode_utf8(one.drop_first()));
    assert(s == s.take(n + 1) + s.skip(n + 1));
    lemma_encode_concat(s.take(n + 1), s.skip(n + 1));
}

fn char_width(c: char) -> (r: usize)
    ensures
        r == utf8_width(c),
{
    let u: u32 = c as u32;
    if u <= 0x7f {
        1
    } else if u <= 0x7ff {
        2
    } else if u <= 0xffff {
        3
    } else {
        4
    }
}

/// How many bytes the string takes in UTF-8.
pub fn byte_len(s: &str) -> (r: usize)
    ensures
        r == utf8_len(s@),
{
    s.as_bytes().len()
}

/// Byte offset of the `chars`-th character, or the end of the text where there is none.
pub fn char_boundary(text: &str, chars: usize) -> (r: usize)
    ensures
        r == utf8_len(text@.take(if chars <= text@.len() { chars as int } else { text@.len() as int })),
{
    let total: usize = byte_len(text);
    let cs: Vec<char> = chars_of(text);
    let mut n: usize = 0;
    let mut bytes: usize = 0;
    proof {
        assert(text@.take(0) == Seq::<char>::empty());
    }
    while n < chars && n < cs.len()
        invariant
            cs@ == text@,
            n <= cs.len(),
            n <= chars,
            bytes == utf8_len(text@.take(n as int)),
            total == utf8_len(text@),
        decreases cs.len() - n,
    {
        proof {
            lemma_utf8_len_step(text@, n as int);
        }
        bytes = bytes + char_width(cs[n]);
        n = n + 1;
    }
    bytes
}

/// How many leading characters of the text fit whole into `bytes` bytes.
pub open spec fn chars_within(s: Seq<char>, bytes: int) -> nat
    decreases s.len(),
{
    if s.len() == 0 || utf8_width(s[0]) > bytes {
        0
    } else {
        1 + chars_within(s.drop_first(), bytes - utf8_width(s[0]))
    }
}

/// How many leading characters of the text fit whole into `bytes` bytes.
pub fn count_within(text: &str, bytes: usize) -> (r: usize)
    ensures
        r == chars_within(text@, bytes as int),
        r <= text@.len(),
{
    let cs: Vec<char> = chars_of(text);
    let mut n: usize = 0;
    let mut left: usize = bytes;
    proof {
        assert(text@.skip(0) == text@);
    }
    while n < cs.len() && char_width(cs[n]) <= left
        invariant
            cs@ == text@,
            n <= cs.len(),
            n + chars_within(text@.skip(n as int), left as int) == chars_within(
                text@,
                bytes as int,
            ),
        decreases cs.len() - n,
    {
        proof {
            assert(text@.skip(n as int).drop_first() == text@.skip(n + 1));
        }
        left = left - char_width(cs[n]);
        n = n + 1;
    }
    n
}

/// The characters that fit into a number of bytes do fit, and the next one does not.
pub proof fn lemma_chars_within(s: Seq<char>, bytes: int)
    requires
        bytes >= 0,
    ensures
        chars_within(s, bytes) <= s.len(),
        utf8_len(s.take(chars_within(s, bytes) as int)) <= bytes,
        chars_within(s, bytes) < s.len() ==> utf8_len(
            s.take(chars_within(s, bytes) as int + 1),
        ) > bytes,
    decreases s.len(),
{
    let n = chars_within(s, bytes) as int;
    if s.len() == 0 {
        assert(s.take(0) == Seq::<char>::empty());
    } else if utf8_width(s[0]) > bytes {
        assert(s.take(0) == Seq::<char>::empty());
        lemma_utf8_len_step(s, 0);
    } else {
        let rest = s.drop_first();
        lemma_chars_within(rest, bytes - utf8_width(s[0]));
        let first = seq![s[0]];
        assert(first == s.take(1));
        assert(s.take(0) == Seq::<char>::empty());
        lemma_utf8_len_step(s, 0);
        assert(s.take(n) == first + rest.take(n - 1));
        lemma_encode_concat(first, rest.take(n - 1));
        if n < s.len() {
            assert(s.take(n + 1) == first + rest.take(n));
            lemma_encode_concat(first, rest.take(n));
        }
    }
}

/// A line feed ends a line, and a carriage return right before it is not part of the line. What
/// holds no line feed is one line, and the empty text has none.
pub proof fn a_line_feed_ends_a_line(first: Seq<char>, rest: Seq<char>)
    requires
        !first.contains('\n'),
    ensures
        lines_of(first + seq!['\n'] + rest) == seq![
            if first.len() > 0 && first.last() == '\r' {
                first.drop_last()
            } else {
                first
            },
        ] + lines_of(rest),
        first.len() > 0 ==> lines_of(first) == seq![first],
        lines_of(Seq::empty()).len() == 0,
{
    let n = first.len() as int;
    let s = first + seq!['\n'] + rest;
    assert forall|i: int| 0 <= i < n implies s[i] != '\n' && first[i] != '\n' by {
        assert(first.contains(first[i]));
    }
    assert(s[n] == '\n');
    lemma_line_end_is(s, n);
    lemma_line_end_is(first, n);
    assert(s.take(n) =~= first);
    assert(s.skip(n + 1) =~= rest);
}

/// No line is longer than the longest, which is one of them.
pub proof fn the_longest_line_is_one_of_them(lines: Seq<Seq<char>>)
    ensures
        forall|i: int| 0 <= i < lines.len() ==> (#[trigger] lines[i]).len() <= longest(lines),
        lines.len() > 0 ==> exists|i: int|
            0 <= i < lines.len() && (#[trigger] lines[i]).len() == longest(lines),
        lines.len() == 0 ==> longest(lines) == 0,
    decreases lines.len(),
{
    if lines.len() > 0 {
        let rest = lines.drop_first();
        the_longest_line_is_one_of_them(rest);
        assert forall|i: int| 0 <= i < lines.len() implies (#[trigger] lines[i]).len() <= longest(
            lines,
        ) by {
            if i > 0 {
                assert(rest[i - 1] == lines[i]);
            }
        }
        if lines[0].len() < longest(rest) {
            let i = choose|i: int| 0 <= i < rest.len() && (#[trigger] rest[i]).len() == longest(rest);
            assert(lines[i + 1] == rest[i]);
        }
        assert(lines[0].len() <= longest(lines));
    }
}

} // verus!
