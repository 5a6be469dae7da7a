//! Character-level building blocks: case folding, blank characters, and the
//! splitting of a text into lines and `::`-delimited blocks.
//!
//! Every operation is given twice: as a mathematical function on `Seq<char>`,
//! and as an executable function on a span `[lo, hi)` of a `Vec<char>` that is
//! proved to compute it.

use vstd::prelude::*;

verus! {

/// The lower-case form of an ASCII capital letter; every other character is
/// left as it is.
pub open spec fn ascii_lower(c: char) -> char {
    if 'A' <= c && c <= 'Z' {
        ((c as u32) + 32) as char
    } else {
        c
    }
}

/// Equality of two texts up to the case of their ASCII letters.
pub open spec fn eq_ignore_ascii_case(a: Seq<char>, b: Seq<char>) -> bool {
    &&& a.len() == b.len()
    &&& forall|i: int| 0 <= i < a.len() ==> ascii_lower(#[trigger] a[i]) == ascii_lower(b[i])
}

/// The characters with the Unicode property `White_Space`.
pub open spec fn is_whitespace(c: char) -> bool {
    let n = c as u32;
    ||| 0x09 <= n <= 0x0D
    ||| n == 0x20
    ||| n == 0x85
    ||| n == 0xA0
    ||| n == 0x1680
    ||| 0x2000 <= n <= 0x200A
    ||| n == 0x2028
    ||| n == 0x2029
    ||| n == 0x202F
    ||| n == 0x205F
    ||| n == 0x3000
}

/// `s` without its leading blank characters.
pub open spec fn trim_start(s: Seq<char>) -> Seq<char>
    decreases s.len(),
{
    if s.len() > 0 && is_whitespace(s[0]) {
        trim_start(s.drop_first())
    } else {
        s
    }
}

/// `s` without its trailing blank characters.
pub open spec fn trim_end(s: Seq<char>) -> Seq<char>
    decreases s.len(),
{
    if s.len() > 0 && is_whitespace(s.last()) {
        trim_end(s.drop_last())
    } else {
        s
    }
}

/// `s` without the blank characters at either end.
pub open spec fn trim(s: Seq<char>) -> Seq<char> {
    trim_end(trim_start(s))
}

/// The position of the first `c` in `s`, or `s.len()` if `s` holds none.
pub open spec fn position(s: Seq<char>, c: char) -> nat
    decreases s.len(),
{
    if s.len() == 0 || s[0] == c {
        0
    } else {
        1 + position(s.drop_first(), c)
    }
}

/// The position at which the first `::` of `s` starts, or `s.len()` if `s`
/// holds none.
pub open spec fn delimiter_position(s: Seq<char>) -> nat
    decreases s.len(),
{
    if s.len() < 2 {
        s.len()
    } else if s[0] == ':' && s[1] == ':' {
        0
    } else {
        1 + delimiter_position(s.drop_first())
    }
}

/// `line` without one carriage return at its end.
pub open spec fn strip_cr(line: Seq<char>) -> Seq<char> {
    if line.len() > 0 && line.last() == '\r' {
        line.drop_last()
    } else {
        line
    }
}

/// The lines of `s`. A line ends at a line feed, or at a carriage return
/// directly followed by one; neither belongs to the line. What follows the
/// last line feed is a line of its own unless it is empty.
pub open spec fn lines(s: Seq<char>) -> Seq<Seq<char>>
    decreases s.len(),
{
    let n = position(s, '\n');
    if s.len() == 0 {
        Seq::empty()
    } else if n < s.len() {
        seq![strip_cr(s.take(n as int))] + lines(s.skip(n as int + 1))
    } else {
        seq![s]
    }
}

/// The pieces of `s` between its `::` delimiters, found from left to right.
/// A text without delimiter is one block, also when it is empty.
pub open spec fn blocks(s: Seq<char>) -> Seq<Seq<char>>
    decreases s.len(),
{
    let n = delimiter_position(s);
    if n + 2 <= s.len() {
        seq![s.take(n as int)] + blocks(s.skip(n as int + 2))
    } else {
        seq![s]
    }
}

/// Whether the spans of `v` within `[lo, hi)` are, one by one, the `parts`.
pub open spec fn spans_are(
    v: Seq<char>,
    lo: int,
    hi: int,
    spans: Seq<(usize, usize)>,
    parts: Seq<Seq<char>>,
) -> bool {
    &&& spans.len() == parts.len()
    &&& forall|i: int|
        0 <= i < spans.len() ==> {
            &&& lo <= (#[trigger] spans[i]).0 <= spans[i].1 <= hi
            &&& v.subrange(spans[i].0 as int, spans[i].1 as int) == parts[i]
        }
}

/// The characters of `s` as a vector.
pub fn chars_of(s: &str) -> (v: Vec<char>)
    ensures
        v@ == s@,
{
    let mut v: Vec<char> = Vec::new();
    for c in it: s.chars()
        invariant
            it.seq() == s@,
            v@ == s@.take(it.index()),
    {
        v.push(c);
    }
    v
}

/// Executable form of [`ascii_lower`].
pub fn to_ascii_lower(c: char) -> (r: char)
    ensures
        r == ascii_lower(c),
{
    if 'A' <= c && c <= 'Z' {
        let n: u8 = c as u8;
        (n + 32) as char
    } else {
        c
    }
}

/// Executable form of [`is_whitespace`].
pub fn char_is_whitespace(c: char) -> (r: bool)
    ensures
        r == is_whitespace(c),
{
    let n: u32 = c as u32;
    (0x09 <= n && n <= 0x0D) || n == 0x20 || n == 0x85 || n == 0xA0 || n == 0x1680 || (0x2000 <= n
        && n <= 0x200A) || n == 0x2028 || n == 0x2029 || n == 0x202F || n == 0x205F || n == 0x3000
}

/// Whether the span `[lo, hi)` of `v` equals `literal` up to ASCII case.
pub fn span_eq_ignore_ascii_case(v: &Vec<char>, lo: usize, hi: usize, literal: &str) -> (r: bool)
    requires
        lo <= hi <= v@.len(),
    ensures
        r == eq_ignore_ascii_case(v@.subrange(lo as int, hi as int), literal@),
{
    let n = literal.unicode_len();
    if hi - lo != n {
        return false;
    }
    let ghost a = v@.subrange(lo as int, hi as int);
    let mut i: usize = 0;
    while i < n
        invariant
            lo <= hi <= v@.len(),
            n == hi - lo,
            n == literal@.len(),
            a == v@.subrange(lo as int, hi as int),
            0 <= i <= n,
            forall|j: int| 0 <= j < i ==> ascii_lower(#[trigger] a[j]) == ascii_lower(literal@[j]),
        decreases n - i,
    {
        if to_ascii_lower(v[lo + i]) != to_ascii_lower(literal.get_char(i)) {
            assert(ascii_lower(a[i as int]) != ascii_lower(literal@[i as int]));
            return false;
        }
        i += 1;
    }
    true
}

/// Whether the span `[lo, hi)` of `v` is exactly `literal`.
pub fn span_eq(v: &Vec<char>, lo: usize, hi: usize, literal: &str) -> (r: bool)
    requires
        lo <= hi <= v@.len(),
    ensures
        r == (v@.subrange(lo as int, hi as int) == literal@),
{
    let n = literal.unicode_len();
    if hi - lo != n {
        return false;
    }
    let ghost a = v@.subrange(lo as int, hi as int);
    let mut i: usize = 0;
    while i < n
        invariant
            lo <= hi <= v@.len(),
            n == hi - lo,
            n == literal@.len(),
            a == v@.subrange(lo as int, hi as int),
            0 <= i <= n,
            forall|j: int| 0 <= j < i ==> #[trigger] a[j] == literal@[j],
        decreases n - i,
    {
        if v[lo + i] != literal.get_char(i) {
            return false;
        }
        i += 1;
    }
    assert(a =~= literal@);
    true
}

/// The first position in `[lo, hi)` at which `v` holds `c`, or `hi`.
pub fn find_char(v: &Vec<char>, lo: usize, hi: usize, c: char) -> (r: usize)
    requires
        lo <= hi <= v@.len(),
    ensures
        lo <= r <= hi,
        r - lo == position(v@.subrange(lo as int, hi as int), c),
{
    let mut i: usize = lo;
    while i < hi && v[i] != c
        invariant
            lo <= i <= hi <= v@.len(),
            position(v@.subrange(lo as int, hi as int), c) == (i - lo) + position(
                v@.subrange(i as int, hi as int),
                c,
            ),
        decreases hi - i,
    {
        assert(v@.subrange(i as int, hi as int).drop_first() == v@.subrange(i + 1, hi as int));
        i += 1;
    }
    i
}

/// The first position in `[lo, hi)` at which a `::` starts in `v`, or `hi`.
pub fn find_delimiter(v: &Vec<char>, lo: usize, hi: usize) -> (r: usize)
    requires
        lo <= hi <= v@.len(),
    ensures
        lo <= r <= hi,
        r - lo == delimiter_position(v@.subrange(lo as int, hi as int)),
        r < hi ==> r + 2 <= hi,
{
    let mut i: usize = lo;
    while hi - i >= 2 && !(v[i] == ':' && v[i + 1] == ':')
        invariant
            lo <= i <= hi <= v@.len(),
            delimiter_position(v@.subrange(lo as int, hi as int)) == (i - lo) + delimiter_position(
                v@.subrange(i as int, hi as int),
            ),
        decreases hi - i,
    {
        assert(v@.subrange(i as int, hi as int).drop_first() == v@.subrange(i + 1, hi as int));
        i += 1;
    }
    if hi - i >= 2 {
        i
    } else {
        hi
    }
}

/// The span of `[lo, hi)` that is left when the blank characters at both ends
/// are taken away.
pub fn trim_span(v: &Vec<char>, lo: usize, hi: usize) -> (r: (usize, usize))
    requires
        lo <= hi <= v@.len(),
    ensures
        lo <= r.0 <= r.1 <= hi,
        v@.subrange(r.0 as int, r.1 as int) == trim(v@.subrange(lo as int, hi as int)),
{
    let mut a: usize = lo;
    while a < hi && char_is_whitespace(v[a])
        invariant
            lo <= a <= hi <= v@.len(),
            trim_start(v@.subrange(lo as int, hi as int)) == trim_start(
                v@.subrange(a as int, hi as int),
            ),
        decreases hi - a,
    {
        assert(v@.subrange(a as int, hi as int).drop_first() == v@.subrange(a + 1, hi as int));
        a += 1;
    }
    let mut b: usize = hi;
    while a < b && char_is_whitespace(v[b - 1])
        invariant
            a <= b <= hi <= v@.len(),
            trim_end(v@.subrange(a as int, hi as int)) == trim_end(v@.subrange(a as int, b as int)),
        decreases b - a,
    {
        assert(v@.subrange(a as int, b as int).drop_last() == v@.subrange(a as int, b - 1));
        b -= 1;
    }
    (a, b)
}

/// The lines of the span `[lo, hi)` of `v`, each as a span of `v`.
pub fn line_spans(v: &Vec<char>, lo: usize, hi: usize) -> (spans: Vec<(usize, usize)>)
    requires
        lo <= hi <= v@.len(),
    ensures
        spans_are(v@, lo as int, hi as int, spans@, lines(v@.subrange(lo as int, hi as int))),
{
    let ghost whole = lines(v@.subrange(lo as int, hi as int));
    let ghost mut done: Seq<Seq<char>> = Seq::empty();
    let mut spans: Vec<(usize, usize)> = Vec::new();
    let mut pos: usize = lo;
    while pos < hi
        invariant
            lo <= pos <= hi <= v@.len(),
            whole == lines(v@.subrange(lo as int, hi as int)),
            whole == done + lines(v@.subrange(pos as int, hi as int)),
            spans_are(v@, lo as int, hi as int, spans@, done),
        decreases hi - pos,
    {
        let ghost rest = v@.subrange(pos as int, hi as int);
        let n = find_char(v, pos, hi, '\n');
        if n < hi {
            let end = if n > pos && v[n - 1] == '\r' {
                n - 1
            } else {
                n
            };
            proof {
                let line = v@.subrange(pos as int, end as int);
                assert(rest.take(n - pos) == v@.subrange(pos as int, n as int));
                assert(rest.skip(n - pos + 1) == v@.subrange(n + 1, hi as int));
                assert(strip_cr(v@.subrange(pos as int, n as int)) == line);
                done = done.push(line);
            }
            spans.push((pos, end));
            pos = n + 1;
        } else {
            proof {
                done = done.push(rest);
            }
            spans.push((pos, hi));
            pos = hi;
        }
    }
    spans
}

/// The `::`-delimited blocks of `v`, each as a span of `v`.
pub fn block_spans(v: &Vec<char>) -> (spans: Vec<(usize, usize)>)
    ensures
        spans_are(v@, 0, v@.len() as int, spans@, blocks(v@)),
{
    let hi = v.len();
    let ghost whole = blocks(v@);
    let ghost mut done: Seq<Seq<char>> = Seq::empty();
    let mut spans: Vec<(usize, usize)> = Vec::new();
    let mut pos: usize = 0;
    assert(v@.subrange(0, hi as int) == v@);
    loop
        invariant_except_break
            pos <= hi == v@.len(),
            whole == done + blocks(v@.subrange(pos as int, hi as int)),
            spans_are(v@, 0, hi as int, spans@, done),
        ensures
            spans_are(v@, 0, hi as int, spans@, whole),
        decreases hi - pos,
    {
        let ghost rest = v@.subrange(pos as int, hi as int);
        let n = find_delimiter(v, pos, hi);
        if n < hi {
            proof {
                let block = v@.subrange(pos as int, n as int);
                assert(rest.take(n - pos) == block);
                assert(rest.skip(n - pos + 2) == v@.subrange(n + 2, hi as int));
                done = done.push(block);
            }
            spans.push((pos, n));
            pos = n + 2;
        } else {
            proof {
                done = done.push(rest);
            }
            spans.push((pos, hi));
            break;
        }
    }
    spans
}

} // verus!
