//! White space, trimming and case folding over the characters of a string.

use vstd::prelude::*;
use vstd::utf8::is_ascii_chars;

verus! {

/// The characters that carry the Unicode `White_Space` property.
pub open spec fn is_whitespace(c: char) -> bool {
    let n = c as u32;
    ||| 0x09 <= n <= 0x0D
    ||| n == 0x20
    ||| n == 0x85
    ||| n == 0xA0
    ||| n == 0x1680
    ||| 0x2000 <= n <= 0x200A
    ||| n == 0x2028
    ||| n == 0x2029
    ||| n == 0x202F
    ||| n == 0x205F
    ||| n == 0x3000
}

/// `s` without the white space it starts with.
pub open spec fn skip_leading(s: Seq<char>) -> Seq<char>
    decreases s.len(),
{
    if s.len() > 0 && is_whitespace(s[0]) {
        skip_leading(s.drop_first())
    } else {
        s
    }
}

/// `s` without the white space it ends with.
pub open spec fn skip_trailing(s: Seq<char>) -> Seq<char>
    decreases s.len(),
{
    if s.len() > 0 && is_whitespace(s.last()) {
        skip_trailing(s.drop_last())
    } else {
        s
    }
}

/// `s` without surrounding white space.
pub open spec fn trimmed(s: Seq<char>) -> Seq<char> {
    skip_trailing(skip_leading(s))
}

/// A text that neither starts nor ends with white space.
pub open spec fn is_trimmed(s: Seq<char>) -> bool {
    s.len() > 0 ==> !is_whitespace(s.first()) && !is_whitespace(s.last())
}

/// Tells whether `c` is a white-space character.
pub fn whitespace(c: char) -> (r: bool)
    ensures
        r == is_whitespace(c),
{
    let n: u32 = c as u32;
    (0x09 <= n && n <= 0x0D) || n == 0x20 || n == 0x85 || n == 0xA0 || n == 0x1680 || (0x2000 <= n
        && n <= 0x200A) || n == 0x2028 || n == 0x2029 || n == 0x202F || n == 0x205F || n == 0x3000
}

/// The characters of `s`, in order.
pub fn chars_of(s: &str) -> (v: Vec<char>)
    ensures
        v@ == s@,
{
    broadcast use vstd::string::group_string_axioms;

    let mut v: Vec<char> = Vec::new();
    for c in it: s.chars()
        invariant
            it.seq() == s@,
            v@ == s@.take(it.index()),
    {
        v.push(c);
    }
    assert(s@.take(s@.len() as int) == s@);
    v
}

/// The bounds of `chars[from..to]` once its surrounding white space is left out.
pub fn trim_bounds(chars: &Vec<char>, from: usize, to: usize) -> (r: (usize, usize))
    requires
        from <= to <= chars@.len(),
    ensures
        from <= r.0 <= r.1 <= to,
        chars@.subrange(r.0 as int, r.1 as int) == trimmed(chars@.subrange(from as int, to as int)),
{
    let mut start: usize = from;
    while start < to && whitespace(chars[start])
        invariant
            from <= start <= to <= chars@.len(),
            skip_leading(chars@.subrange(from as int, to as int)) == skip_leading(
                chars@.subrange(start as int, to as int),
            ),
        decreases to - start,
    {
        assert(chars@.subrange(start as int, to as int).drop_first() == chars@.subrange(
            start + 1,
            to as int,
        ));
        start += 1;
    }
    let mut end: usize = to;
    while end > start && whitespace(chars[end - 1])
        invariant
            start <= end <= to <= chars@.len(),
            skip_trailing(chars@.subrange(start as int, to as int)) == skip_trailing(
                chars@.subrange(start as int, end as int),
            ),
        decreases end - start,
    {
        assert(chars@.subrange(start as int, end as int).drop_last() == chars@.subrange(
            start as int,
            end - 1,
        ));
        end -= 1;
    }
    (start, end)
}

/// `s` without surrounding white space.
pub fn trim(s: &str) -> (r: &str)
    ensures
        r@ == trimmed(s@),
{
    let chars = chars_of(s);
    let (start, end) = trim_bounds(&chars, 0, chars.len());
    assert(chars@.subrange(0, chars@.len() as int) == chars@);
    s.substring_char(start, end)
}

/// The lines of `s`: the pieces between its newline characters. A text without
/// a newline is one line, and a text that ends in a newline ends in an empty line.
pub open spec fn lines_of(s: Seq<char>) -> Seq<Seq<char>>
    decreases s.len(),
{
    if s.len() == 0 {
        seq![Seq::<char>::empty()]
    } else {
        let before = lines_of(s.drop_last());
        if s.last() == '\n' {
            before.push(Seq::<char>::empty())
        } else {
            before.update(before.len() - 1, before.last().push(s.last()))
        }
    }
}

/// Every line of `lines` without surrounding white space.
pub open spec fn trim_each(lines: Seq<Seq<char>>) -> Seq<Seq<char>> {
    Seq::new(lines.len(), |i: int| trimmed(lines[i]))
}

/// The lines of `lines` in order, each followed by a newline.
pub open spec fn terminated(lines: Seq<Seq<char>>) -> Seq<char>
    decreases lines.len(),
{
    if lines.len() == 0 {
        Seq::<char>::empty()
    } else {
        terminated(lines.drop_last()) + lines.last() + seq!['\n']
    }
}

/// The lines of `lines` in order, with a newline between neighbours.
pub open spec fn joined(lines: Seq<Seq<char>>) -> Seq<char> {
    if lines.len() == 0 {
        Seq::<char>::empty()
    } else {
        terminated(lines.drop_last()) + lines.last()
    }
}

/// `s` with the white space around each of its lines left out. No line is
/// dropped or merged with another, empty ones included.
pub open spec fn trimmed_lines(s: Seq<char>) -> Seq<char> {
    joined(trim_each(lines_of(s)))
}

/// `String::push`: the string afterwards is the string before with `c` added at its end.
#[verifier::external_body]
fn push_char(s: &mut String, c: char)
    ensures
        final(s)@ == old(s)@.push(c),
{
    s.push(c);
}

/// Appends `chars[from..to]` to `out`.
fn push_range(out: &mut String, chars: &Vec<char>, from: usize, to: usize)
    requires
        from <= to <= chars@.len(),
    ensures
        final(out)@ == old(out)@ + chars@.subrange(from as int, to as int),
{
    let mut i: usize = from;
    while i < to
        invariant
            from <= i <= to <= chars@.len(),
            out@ == old(out)@ + chars@.subrange(from as int, i as int),
        decreases to - i,
    {
        push_char(out, chars[i]);
        assert(chars@.subrange(from as int, i + 1) == chars@.subrange(from as int, i as int).push(
            chars@[i as int],
        ));
        i += 1;
    }
}

/// `s` with the white space around each of its lines left out.
pub fn trim_lines(s: &str) -> (r: String)
    ensures
        r@ == trimmed_lines(s@),
{
    let chars = chars_of(s);
    let n = chars.len();
    let mut out = String::new();
    let mut line_start: usize = 0;
    let mut i: usize = 0;
    while i < n
        invariant
            line_start <= i <= n == chars@.len(),
            lines_of(chars@.take(i as int)).len() > 0,
            lines_of(chars@.take(i as int)).last() == chars@.subrange(
                line_start as int,
                i as int,
            ),
            out@ == terminated(trim_each(lines_of(chars@.take(i as int)).drop_last())),
        decreases n - i,
    {
        let ghost before = lines_of(chars@.take(i as int));
        let ghost after = lines_of(chars@.take(i + 1));
        assert(chars@.take(i + 1).drop_last() == chars@.take(i as int));
        if chars[i] == '\n' {
            let (a, b) = trim_bounds(&chars, line_start, i);
            push_range(&mut out, &chars, a, b);
            push_char(&mut out, '\n');
            line_start = i + 1;
            proof {
                assert(after == before.push(Seq::<char>::empty()));
                assert(after.drop_last() == before);
                assert(trim_each(before).drop_last() == trim_each(before.drop_last()));
                assert(trim_each(before).last() == trimmed(before.last()));
                assert(chars@.subrange(i + 1, i + 1) == Seq::<char>::empty());
            }
        } else {
            proof {
                assert(after.drop_last() == before.drop_last());
                assert(chars@.subrange(line_start as int, i + 1) == chars@.subrange(
                    line_start as int,
                    i as int,
                ).push(chars@[i as int]));
            }
        }
        i += 1;
    }
    let (a, b) = trim_bounds(&chars, line_start, n);
    push_range(&mut out, &chars, a, b);
    proof {
        let lines = lines_of(chars@);
        assert(chars@.take(n as int) == chars@);
        assert(trim_each(lines).drop_last() == trim_each(lines.drop_last()));
    }
    out
}

/// The characters of each string of a list, in order.
pub open spec fn texts(strings: Seq<String>) -> Seq<Seq<char>> {
    Seq::new(strings.len(), |i: int| strings[i]@)
}

/// `line` without the carriage return at its end, where it has one.
pub open spec fn without_return(line: Seq<char>) -> Seq<char> {
    if line.len() > 0 && line.last() == '\r' {
        line.drop_last()
    } else {
        line
    }
}

/// The lines of `s` as they are printed one below the other. A line ends at
/// a newline, or at a carriage return followed by a newline, and neither is
/// part of the line. What follows the last newline is a line only where it is
/// not empty.
pub open spec fn printed_lines(s: Seq<char>) -> Seq<Seq<char>> {
    let lines = lines_of(s);
    let ended = Seq::new((lines.len() - 1) as nat, |i: int| without_return(lines[i]));
    if lines.last().len() == 0 {
        ended
    } else {
        ended.push(lines.last())
    }
}

/// The lines of `s` as they are printed one below the other.
pub fn split_lines(s: &str) -> (r: Vec<String>)
    ensures
        texts(r@) == printed_lines(s@),
{
    let chars = chars_of(s);
    let n = chars.len();
    let mut lines: Vec<String> = Vec::new();
    let mut line_start: usize = 0;
    let mut i: usize = 0;
    while i < n
        invariant
            line_start <= i <= n == chars@.len(),
            lines_of(chars@.take(i as int)).len() > 0,
            lines_of(chars@.take(i as int)).last() == chars@.subrange(
                line_start as int,
                i as int,
            ),
            texts(lines@) == Seq::new(
                (lines_of(chars@.take(i as int)).len() - 1) as nat,
                |k: int| without_return(lines_of(chars@.take(i as int))[k]),
            ),
        decreases n - i,
    {
        let ghost before = lines_of(chars@.take(i as int));
        let ghost after = lines_of(chars@.take(i + 1));
        assert(chars@.take(i + 1).drop_last() == chars@.take(i as int));
        if chars[i] == '\n' {
            let line_end: usize = if i > line_start && chars[i - 1] == '\r' {
                i - 1
            } else {
                i
            };
            let mut line = String::new();
            push_range(&mut line, &chars, line_start, line_end);
            let ghost listed = lines@;
            lines.push(line);
            line_start = i + 1;
            proof {
                assert(after == before.push(Seq::<char>::empty()));
                assert(line@ == without_return(before.last()));
                assert(texts(lines@) == texts(listed).push(line@));
                assert(chars@.subrange(i + 1, i + 1) == Seq::<char>::empty());
            }
        } else {
            proof {
                assert(after.drop_last() == before.drop_last());
                assert(chars@.subrange(line_start as int, i + 1) == chars@.subrange(
                    line_start as int,
                    i as int,
                ).push(chars@[i as int]));
            }
        }
        i += 1;
    }
    assert(chars@.take(n as int) == chars@);
    if line_start < n {
        let mut line = String::new();
        push_range(&mut line, &chars, line_start, n);
        let ghost listed = lines@;
        lines.push(line);
        assert(texts(lines@) == texts(listed).push(line@));
    }
    lines
}

/// The small letter of an ASCII capital; every other character is left as it is.
pub open spec fn ascii_lower(c: char) -> char {
    if 0x41 <= c as u32 <= 0x5A {
        ((c as u32) + 0x20) as char
    } else {
        c
    }
}

/// What `str::to_lowercase` of the standard library returns for the text `s`.
pub uninterp spec fn unicode_lowercase(s: Seq<char>) -> Seq<char>;

/// What `char::to_lowercase` of the standard library yields for the character `c`.
pub uninterp spec fn unicode_lowercase_of_char(c: char) -> Seq<char>;

/// The lowercase form of a text. ASCII text is folded letter by letter; a text
/// that holds any other character gets the lowercase form that Unicode defines.
pub open spec fn folded(s: Seq<char>) -> Seq<char> {
    if is_ascii_chars(s) {
        s.map_values(|c: char| ascii_lower(c))
    } else {
        unicode_lowercase(s)
    }
}

/// The lowercase form of one character, which may be longer than one character.
pub open spec fn folded_char(c: char) -> Seq<char> {
    if (c as u32) < 0x80 {
        seq![ascii_lower(c)]
    } else {
        unicode_lowercase_of_char(c)
    }
}

/// The lowercase forms of the characters of `s`, one after the other.
pub open spec fn folded_chars(s: Seq<char>) -> Seq<char>
    decreases s.len(),
{
    if s.len() == 0 {
        Seq::<char>::empty()
    } else {
        folded_chars(s.drop_last()) + folded_char(s.last())
    }
}

/// `str::to_lowercase`: the Unicode lowercase form of the whole text, which
/// depends on nothing but the text.
#[verifier::external_body]
fn unicode_lowercase_string(s: &str) -> (r: String)
    ensures
        r@ == unicode_lowercase(s@),
{
    s.to_lowercase()
}

/// `char::to_lowercase`: the characters that the lowercase mapping of `c`
/// yields, in order; they depend on nothing but `c`.
#[verifier::external_body]
fn unicode_lowercase_char(c: char) -> (r: Vec<char>)
    ensures
        r@ == unicode_lowercase_of_char(c),
{
    c.to_lowercase().collect()
}

/// The small letter of an ASCII capital; every other character is left as it is.
pub fn lower_ascii(c: char) -> (r: char)
    ensures
        r == ascii_lower(c),
{
    if 'A' <= c && c <= 'Z' {
        ((c as u8) + 32) as char
    } else {
        c
    }
}

/// The lowercase form of `s`.
pub fn fold_case(s: &str) -> (r: String)
    ensures
        r@ == folded(s@),
{
    if s.is_ascii() {
        let chars = chars_of(s);
        let mut out = String::new();
        let mut i: usize = 0;
        while i < chars.len()
            invariant
                i <= chars@.len(),
                out@ == chars@.take(i as int).map_values(|c: char| ascii_lower(c)),
            decreases chars@.len() - i,
        {
            push_char(&mut out, lower_ascii(chars[i]));
            assert(chars@.take(i + 1).map_values(|c: char| ascii_lower(c)) == chars@.take(
                i as int,
            ).map_values(|c: char| ascii_lower(c)).push(ascii_lower(chars@[i as int])));
            i += 1;
        }
        assert(chars@.take(chars@.len() as int) == chars@);
        out
    } else {
        unicode_lowercase_string(s)
    }
}

/// The lowercase form of one character.
pub fn fold_char(c: char) -> (r: Vec<char>)
    ensures
        r@ == folded_char(c),
{
    if (c as u32) < 0x80 {
        let mut r: Vec<char> = Vec::new();
        r.push(lower_ascii(c));
        r
    } else {
        unicode_lowercase_char(c)
    }
}

/// The lowercase forms of the characters of `s`, one after the other.
pub fn fold_chars(s: &str) -> (r: Vec<char>)
    ensures
        r@ == folded_chars(s@),
{
    let chars = chars_of(s);
    let mut out: Vec<char> = Vec::new();
    let mut i: usize = 0;
    while i < chars.len()
        invariant
            i <= chars@.len(),
            out@ == folded_chars(chars@.take(i as int)),
        decreases chars@.len() - i,
    {
        let mut lower = fold_char(chars[i]);
        out.append(&mut lower);
        assert(chars@.take(i + 1).drop_last() == chars@.take(i as int));
        i += 1;
    }
    assert(chars@.take(chars@.len() as int) == chars@);
    out
}

} // verus!
