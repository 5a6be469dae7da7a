//! The key vocabulary: the keys of a keyboard, the literal forms by which a
//! text names them, and the parsing of such a text.

use crate::error::{ParseError, ParseErrorView};
use crate::text::{ascii_lower, chars_of, eq_ignore_ascii_case, span_eq_ignore_ascii_case, to_ascii_lower};
use vstd::prelude::*;

verus! {

/// A key of the keyboard, whatever the layout puts on it.
#[derive(Debug, Clone, Copy, PartialEq, Eq, Hash, Structural)]
pub enum Key {
    Q,
    W,
    E,
    R,
    T,
    Y,
    U,
    I,
    O,
    P,
    A,
    S,
    D,
    F,
    G,
    H,
    J,
    K,
    L,
    Z,
    X,
    C,
    V,
    B,
    N,
    M,
    /// `1` and `!`
    Num1,
    /// `2` and `@`
    Num2,
    /// `3` and `#`
    Num3,
    /// `4` and `$`
    Num4,
    /// `5` and `%`
    Num5,
    /// `6` and `^`
    Num6,
    /// `7` and `&`
    Num7,
    /// `8` and `*`
    Num8,
    /// `9` and `(`
    Num9,
    /// `0` and `)`
    Num0,
    /// `,` and `<`
    Comma,
    /// `.` and `>`
    Period,
    /// `/` and `?`
    ForSlash,
    /// `\\` and `|`
    BackSlash,
    /// `;` and `:`
    Semicolon,
    /// `'` and `"`
    SingleQuote,
    /// `` ` `` and `~`
    Tick,
    /// `-` and `_`
    Minus,
    /// `=` and `+`
    Equal,
    /// `[` and `{`
    LBracket,
    /// `]` and `}`
    RBracket,
    /// `<BckSp>`
    Backspace,
    /// `<Enter>`
    Enter,
    /// `<LShft>` and `<RShft>`
    Shift,
    /// `<LCtrl>` and `<RCtrl>`
    Ctrl,
    /// `<LAlt>` and `<RAlt>`
    Alt,
    /// `<Tab>`
    Tab,
    /// `<Esc>`
    Esc,
    /// `<Up>`
    Up,
    /// `<Down>`
    Down,
    /// `<Right>`
    Right,
    /// `<Left>`
    Left,
    /// `<Space>`
    Space,
}

impl Key {
    /// The literal forms of this key. A text names the key when it equals one
    /// of them up to the case of its ASCII letters.
    pub open spec fn literals(self) -> Seq<Seq<char>> {
        match self {
            Key::Q => seq![seq!['Q']],
            Key::W => seq![seq!['W']],
            Key::E => seq![seq!['E']],
            Key::R => seq![seq!['R']],
            Key::T => seq![seq!['T']],
            Key::Y => seq![seq!['Y']],
            Key::U => seq![seq!['U']],
            Key::I => seq![seq!['I']],
            Key::O => seq![seq!['O']],
            Key::P => seq![seq!['P']],
            Key::A => seq![seq!['A']],
            Key::S => seq![seq!['S']],
            Key::D => seq![seq!['D']],
            Key::F => seq![seq!['F']],
            Key::G => seq![seq!['G']],
            Key::H => seq![seq!['H']],
            Key::J => seq![seq!['J']],
            Key::K => seq![seq!['K']],
            Key::L => seq![seq!['L']],
            Key::Z => seq![seq!['Z']],
            Key::X => seq![seq!['X']],
            Key::C => seq![seq!['C']],
            Key::V => seq![seq!['V']],
            Key::B => seq![seq!['B']],
            Key::N => seq![seq!['N']],
            Key::M => seq![seq!['M']],
            Key::Num1 => seq![seq!['1'], seq!['!']],
            Key::Num2 => seq![seq!['2'], seq!['@']],
            Key::Num3 => seq![seq!['3'], seq!['#']],
            Key::Num4 => seq![seq!['4'], seq!['$']],
            Key::Num5 => seq![seq!['5'], seq!['%']],
            Key::Num6 => seq![seq!['6'], seq!['^']],
            Key::Num7 => seq![seq!['7'], seq!['&']],
            Key::Num8 => seq![seq!['8'], seq!['*']],
            Key::Num9 => seq![seq!['9'], seq!['(']],
            Key::Num0 => seq![seq!['0'], seq![')']],
            Key::Comma => seq![seq![','], seq!['<']],
            Key::Period => seq![seq!['.'], seq!['>']],
            Key::ForSlash => seq![seq!['/'], seq!['?']],
            Key::BackSlash => seq![seq!['\\'], seq!['|']],
            Key::Semicolon => seq![seq![';'], seq![':']],
            Key::SingleQuote => seq![seq!['\''], seq!['"']],
            Key::Tick => seq![seq!['`'], seq!['~']],
            Key::Minus => seq![seq!['-'], seq!['_']],
            Key::Equal => seq![seq!['='], seq!['+']],
            Key::LBracket => seq![seq!['['], seq!['{']],
            Key::RBracket => seq![seq![']'], seq!['}']],
            Key::Backspace => seq![seq!['<', 'B', 'c', 'k', 'S', 'p', '>']],
            Key::Enter => seq![seq!['<', 'E', 'n', 't', 'e', 'r', '>']],
            Key::Shift => seq![seq!['<', 'L', 'S', 'h', 'f', 't', '>'], seq!['<', 'R', 'S', 'h', 'f', 't', '>']],
            Key::Ctrl => seq![seq!['<', 'L', 'C', 't', 'r', 'l', '>'], seq!['<', 'R', 'C', 't', 'r', 'l', '>']],
            Key::Alt => seq![seq!['<', 'L', 'A', 'l', 't', '>'], seq!['<', 'R', 'A', 'l', 't', '>']],
            Key::Tab => seq![seq!['<', 'T', 'a', 'b', '>']],
            Key::Esc => seq![seq!['<', 'E', 's', 'c', '>']],
            Key::Up => seq![seq!['<', 'U', 'p', '>']],
            Key::Down => seq![seq!['<', 'D', 'o', 'w', 'n', '>']],
            Key::Right => seq![seq!['<', 'R', 'i', 'g', 'h', 't', '>']],
            Key::Left => seq![seq!['<', 'L', 'e', 'f', 't', '>']],
            Key::Space => seq![seq!['<', 'S', 'p', 'a', 'c', 'e', '>']],
        }
    }

    /// Whether `text` is a literal form of this key, up to ASCII case.
    pub open spec fn accepts(self, text: Seq<char>) -> bool {
        exists|i: int|
            0 <= i < self.literals().len() && eq_ignore_ascii_case(
                text,
                #[trigger] self.literals()[i],
            )
    }
}

/// The key that `text` names, if it names one.
pub open spec fn key_of(text: Seq<char>) -> Option<Key> {
    if exists|k: Key| k.accepts(text) {
        Some(choose|k: Key| k.accepts(text))
    } else {
        None
    }
}

/// The key with the one-character literal `c`, where `c` is no capital letter.
spec fn key_of_lower_char(c: char) -> Option<Key> {
    match c {
        'q' => Some(Key::Q),
        'w' => Some(Key::W),
        'e' => Some(Key::E),
        'r' => Some(Key::R),
        't' => Some(Key::T),
        'y' => Some(Key::Y),
        'u' => Some(Key::U),
        'i' => Some(Key::I),
        'o' => Some(Key::O),
        'p' => Some(Key::P),
        'a' => Some(Key::A),
        's' => Some(Key::S),
        'd' => Some(Key::D),
        'f' => Some(Key::F),
        'g' => Some(Key::G),
        'h' => Some(Key::H),
        'j' => Some(Key::J),
        'k' => Some(Key::K),
        'l' => Some(Key::L),
        'z' => Some(Key::Z),
        'x' => Some(Key::X),
        'c' => Some(Key::C),
        'v' => Some(Key::V),
        'b' => Some(Key::B),
        'n' => Some(Key::N),
        'm' => Some(Key::M),
        '1' | '!' => Some(Key::Num1),
        '2' | '@' => Some(Key::Num2),
        '3' | '#' => Some(Key::Num3),
        '4' | '$' => Some(Key::Num4),
        '5' | '%' => Some(Key::Num5),
        '6' | '^' => Some(Key::Num6),
        '7' | '&' => Some(Key::Num7),
        '8' | '*' => Some(Key::Num8),
        '9' | '(' => Some(Key::Num9),
        '0' | ')' => Some(Key::Num0),
        ',' | '<' => Some(Key::Comma),
        '.' | '>' => Some(Key::Period),
        '/' | '?' => Some(Key::ForSlash),
        '\\' | '|' => Some(Key::BackSlash),
        ';' | ':' => Some(Key::Semicolon),
        '\'' | '"' => Some(Key::SingleQuote),
        '`' | '~' => Some(Key::Tick),
        '-' | '_' => Some(Key::Minus),
        '=' | '+' => Some(Key::Equal),
        '[' | '{' => Some(Key::LBracket),
        ']' | '}' => Some(Key::RBracket),
        _ => None,
    }
}

/// The key with the bracketed name `text`, up to ASCII case.
spec fn key_of_name(text: Seq<char>) -> Option<Key> {
    if eq_ignore_ascii_case(text, seq!['<', 'B', 'c', 'k', 'S', 'p', '>']) {
        Some(Key::Backspace)
    }
    else if eq_ignore_ascii_case(text, seq!['<', 'E', 'n', 't', 'e', 'r', '>']) {
        Some(Key::Enter)
    }
    else if eq_ignore_ascii_case(text, seq!['<', 'L', 'S', 'h', 'f', 't', '>']) {
        Some(Key::Shift)
    }
    else if eq_ignore_ascii_case(text, seq!['<', 'R', 'S', 'h', 'f', 't', '>']) {
        Some(Key::Shift)
    }
    else if eq_ignore_ascii_case(text, seq!['<', 'L', 'C', 't', 'r', 'l', '>']) {
        Some(Key::Ctrl)
    }
    else if eq_ignore_ascii_case(text, seq!['<', 'R', 'C', 't', 'r', 'l', '>']) {
        Some(Key::Ctrl)
    }
    else if eq_ignore_ascii_case(text, seq!['<', 'L', 'A', 'l', 't', '>']) {
        Some(Key::Alt)
    }
    else if eq_ignore_ascii_case(text, seq!['<', 'R', 'A', 'l', 't', '>']) {
        Some(Key::Alt)
    }
    else if eq_ignore_ascii_case(text, seq!['<', 'T', 'a', 'b', '>']) {
        Some(Key::Tab)
    }
    else if eq_ignore_ascii_case(text, seq!['<', 'E', 's', 'c', '>']) {
        Some(Key::Esc)
    }
    else if eq_ignore_ascii_case(text, seq!['<', 'U', 'p', '>']) {
        Some(Key::Up)
    }
    else if eq_ignore_ascii_case(text, seq!['<', 'D', 'o', 'w', 'n', '>']) {
        Some(Key::Down)
    }
    else if eq_ignore_ascii_case(text, seq!['<', 'R', 'i', 'g', 'h', 't', '>']) {
        Some(Key::Right)
    }
    else if eq_ignore_ascii_case(text, seq!['<', 'L', 'e', 'f', 't', '>']) {
        Some(Key::Left)
    }
    else if eq_ignore_ascii_case(text, seq!['<', 'S', 'p', 'a', 'c', 'e', '>']) {
        Some(Key::Space)
    }
    else {
        None
    }
}

/// The key that `text` names, found by its shape: one character, or a name.
spec fn key_by_shape(text: Seq<char>) -> Option<Key> {
    if text.len() == 1 {
        key_of_lower_char(ascii_lower(text[0]))
    } else {
        key_of_name(text)
    }
}

/// Every key accepts exactly the texts that have its shape.
proof fn lemma_accepts_then_shape(k: Key, text: Seq<char>)
    requires
        k.accepts(text),
    ensures
        key_by_shape(text) == Some(k),
{
    let i = choose|i: int|
        0 <= i < k.literals().len() && eq_ignore_ascii_case(text, #[trigger] k.literals()[i]);
    let form = k.literals()[i];
    if text.len() > 1 {
        assert(ascii_lower(text[1]) == ascii_lower(form[1]));
        assert(ascii_lower(text[2]) == ascii_lower(form[2]));
    }
}

proof fn lemma_shape_then_accepts(k: Key, text: Seq<char>)
    requires
        key_by_shape(text) == Some(k),
    ensures
        k.accepts(text),
{
    if text.len() == 1 {
        let c = ascii_lower(text[0]);
        let i = if k.literals().len() == 2 && ascii_lower(k.literals()[1][0]) == c { 1int } else { 0int };
        assert(eq_ignore_ascii_case(text, k.literals()[i]));
    } else {
        let i = if k.literals().len() == 2 && eq_ignore_ascii_case(text, k.literals()[1]) { 1int } else { 0int };
        assert(eq_ignore_ascii_case(text, k.literals()[i]));
    }
}

/// A key accepts a text exactly when the text has the key's shape.
proof fn lemma_key_of_by_shape(text: Seq<char>)
    ensures
        key_of(text) == key_by_shape(text),
{
    match key_by_shape(text) {
        Some(k) => {
            lemma_shape_then_accepts(k, text);
            lemma_accepts_then_shape(choose|k: Key| k.accepts(text), text);
        },
        None => {
            assert forall|k: Key| !k.accepts(text) by {
                if k.accepts(text) {
                    lemma_accepts_then_shape(k, text);
                }
            }
        },
    }
}

/// No text names two keys.
pub proof fn lemma_key_is_unambiguous(k1: Key, k2: Key, text: Seq<char>)
    requires
        k1.accepts(text),
        k2.accepts(text),
    ensures
        k1 == k2,
{
    lemma_accepts_then_shape(k1, text);
    lemma_accepts_then_shape(k2, text);
}

/// A text that equals a literal form of a key, up to ASCII case, names that
/// key and no other.
pub proof fn lemma_literal_names_key(k: Key, i: int, text: Seq<char>)
    requires
        0 <= i < k.literals().len(),
        eq_ignore_ascii_case(text, k.literals()[i]),
    ensures
        key_of(text) == Some(k),
{
    lemma_accepts_then_shape(k, text);
    lemma_key_of_by_shape(text);
}

/// A text names a key if and only if some key accepts it, and then it names
/// the one key that does.
pub proof fn lemma_key_of_accepts(text: Seq<char>)
    ensures
        key_of(text) matches Some(k) ==> k.accepts(text),
        key_of(text) is None <==> forall|k: Key| !k.accepts(text),
        forall|k: Key| k.accepts(text) ==> key_of(text) == Some(k),
{
    lemma_key_of_by_shape(text);
    assert forall|k: Key| k.accepts(text) implies key_of(text) == Some(k) by {
        lemma_accepts_then_shape(k, text);
    }
}

/// The character that a digit key gives with shift held down.
pub open spec fn shifted_digit(d: char) -> char {
    match d {
        '1' => '!',
        '2' => '@',
        '3' => '#',
        '4' => '$',
        '5' => '%',
        '6' => '^',
        '7' => '&',
        '8' => '*',
        '9' => '(',
        '0' => ')',
        _ => d,
    }
}

/// A digit and its shifted character name the same key.
pub proof fn lemma_digit_and_shifted(d: char)
    requires
        '0' <= d <= '9',
    ensures
        key_of(seq![d]) is Some,
        key_of(seq![shifted_digit(d)]) == key_of(seq![d]),
{
    lemma_key_of_by_shape(seq![d]);
    lemma_key_of_by_shape(seq![shifted_digit(d)]);
}

impl Key {
    /// The key that the single character `c` names, if any.
    pub fn from_char(c: char) -> (r: Option<Key>)
        ensures
            r == key_of(seq![c]),
    {
        proof {
            lemma_key_of_by_shape(seq![c]);
        }
        match to_ascii_lower(c) {
            'q' => Some(Key::Q),
            'w' => Some(Key::W),
            'e' => Some(Key::E),
            'r' => Some(Key::R),
            't' => Some(Key::T),
            'y' => Some(Key::Y),
            'u' => Some(Key::U),
            'i' => Some(Key::I),
            'o' => Some(Key::O),
            'p' => Some(Key::P),
            'a' => Some(Key::A),
            's' => Some(Key::S),
            'd' => Some(Key::D),
            'f' => Some(Key::F),
            'g' => Some(Key::G),
            'h' => Some(Key::H),
            'j' => Some(Key::J),
            'k' => Some(Key::K),
            'l' => Some(Key::L),
            'z' => Some(Key::Z),
            'x' => Some(Key::X),
            'c' => Some(Key::C),
            'v' => Some(Key::V),
            'b' => Some(Key::B),
            'n' => Some(Key::N),
            'm' => Some(Key::M),
            '1' | '!' => Some(Key::Num1),
            '2' | '@' => Some(Key::Num2),
            '3' | '#' => Some(Key::Num3),
            '4' | '$' => Some(Key::Num4),
            '5' | '%' => Some(Key::Num5),
            '6' | '^' => Some(Key::Num6),
            '7' | '&' => Some(Key::Num7),
            '8' | '*' => Some(Key::Num8),
            '9' | '(' => Some(Key::Num9),
            '0' | ')' => Some(Key::Num0),
            ',' | '<' => Some(Key::Comma),
            '.' | '>' => Some(Key::Period),
            '/' | '?' => Some(Key::ForSlash),
            '\\' | '|' => Some(Key::BackSlash),
            ';' | ':' => Some(Key::Semicolon),
            '\'' | '"' => Some(Key::SingleQuote),
            '`' | '~' => Some(Key::Tick),
            '-' | '_' => Some(Key::Minus),
            '=' | '+' => Some(Key::Equal),
            '[' | '{' => Some(Key::LBracket),
            ']' | '}' => Some(Key::RBracket),
            _ => None,
        }
    }

    /// The key that the span `[lo, hi)` of `v` names, if any.
    pub fn from_span(v: &Vec<char>, lo: usize, hi: usize) -> (r: Option<Key>)
        requires
            lo <= hi <= v@.len(),
        ensures
            r == key_of(v@.subrange(lo as int, hi as int)),
    {
        let ghost text = v@.subrange(lo as int, hi as int);
        proof {
            lemma_key_of_by_shape(text);
        }
        if hi - lo == 1 {
            assert(text =~= seq![v@[lo as int]]);
            return Key::from_char(v[lo]);
        }
        proof {
            reveal_strlit("<BckSp>");
            reveal_strlit("<Enter>");
            reveal_strlit("<LShft>");
            reveal_strlit("<RShft>");
            reveal_strlit("<LCtrl>");
            reveal_strlit("<RCtrl>");
            assert("<RCtrl>"@ =~= seq!['<', 'R', 'C', 't', 'r', 'l', '>']);
            reveal_strlit("<LAlt>");
            reveal_strlit("<RAlt>");
            reveal_strlit("<Tab>");
            reveal_strlit("<Esc>");
            reveal_strlit("<Up>");
            reveal_strlit("<Down>");
            reveal_strlit("<Right>");
            assert("<Right>"@ =~= seq!['<', 'R', 'i', 'g', 'h', 't', '>']);
            reveal_strlit("<Left>");
            assert("<Left>"@ =~= seq!['<', 'L', 'e', 'f', 't', '>']);
            reveal_strlit("<Space>");
        }
        if span_eq_ignore_ascii_case(v, lo, hi, "<BckSp>") {
            Some(Key::Backspace)
        }
        else if span_eq_ignore_ascii_case(v, lo, hi, "<Enter>") {
            Some(Key::Enter)
        }
        else if span_eq_ignore_ascii_case(v, lo, hi, "<LShft>") {
            Some(Key::Shift)
        }
        else if span_eq_ignore_ascii_case(v, lo, hi, "<RShft>") {
            Some(Key::Shift)
        }
        else if span_eq_ignore_ascii_case(v, lo, hi, "<LCtrl>") {
            Some(Key::Ctrl)
        }
        else if span_eq_ignore_ascii_case(v, lo, hi, "<RCtrl>") {
            Some(Key::Ctrl)
        }
        else if span_eq_ignore_ascii_case(v, lo, hi, "<LAlt>") {
            Some(Key::Alt)
        }
        else if span_eq_ignore_ascii_case(v, lo, hi, "<RAlt>") {
            Some(Key::Alt)
        }
        else if span_eq_ignore_ascii_case(v, lo, hi, "<Tab>") {
            Some(Key::Tab)
        }
        else if span_eq_ignore_ascii_case(v, lo, hi, "<Esc>") {
            Some(Key::Esc)
        }
        else if span_eq_ignore_ascii_case(v, lo, hi, "<Up>") {
            Some(Key::Up)
        }
        else if span_eq_ignore_ascii_case(v, lo, hi, "<Down>") {
            Some(Key::Down)
        }
        else if span_eq_ignore_ascii_case(v, lo, hi, "<Right>") {
            Some(Key::Right)
        }
        else if span_eq_ignore_ascii_case(v, lo, hi, "<Left>") {
            Some(Key::Left)
        }
        else if span_eq_ignore_ascii_case(v, lo, hi, "<Space>") {
            Some(Key::Space)
        }
        else {
            None
        }
    }
}

impl core::str::FromStr for Key {
    type Err = ParseError;

    /// Parses a key literal. The whole of `s` has to be a literal form of the
    /// key, up to ASCII case; otherwise the error holds `s`.
    fn from_str(s: &str) -> (res: Result<Key, ParseError>)
        ensures
            match res {
                Ok(k) => key_of(s@) == Some(k),
                Err(e) => key_of(s@) is None && e@ == ParseErrorView::UnrecognizedKeyLiteral(s@),
            },
    {
        let v = chars_of(s);
        assert(v@.subrange(0, v@.len() as int) =~= s@);
        match Key::from_span(&v, 0, v.len()) {
            Some(k) => Ok(k),
            None => Err(ParseError::UnrecognizedKeyLiteral(s.to_owned())),
        }
    }
}

/// The number of characters of `text` that name `key`.
pub open spec fn occurrences(text: Seq<char>, key: Key) -> nat
    decreases text.len(),
{
    if text.len() == 0 {
        0
    } else if key_of(seq![text.last()]) == Some(key) {
        occurrences(text.drop_last(), key) + 1
    } else {
        occurrences(text.drop_last(), key)
    }
}

/// The position of the first character of `text` that names no key, or
/// `text.len()` if every character names one.
pub open spec fn first_unnamed(text: Seq<char>) -> nat
    decreases text.len(),
{
    if text.len() == 0 || key_of(seq![text[0]]) is None {
        0
    } else {
        1 + first_unnamed(text.drop_first())
    }
}

/// Whether `counts` has an entry for `key`.
pub open spec fn listed(counts: Seq<(usize, Key)>, key: Key) -> bool {
    exists|n: int| 0 <= n < counts.len() && (#[trigger] counts[n]).1 == key
}

/// Whether `counts` tells how often each key is named in `text`: every
/// entry holds a key and the number of its occurrences, which is not zero;
/// no key has two entries; and every key that `text` names has one.
pub open spec fn tallies(text: Seq<char>, counts: Seq<(usize, Key)>) -> bool {
    &&& forall|n: int|
        0 <= n < counts.len() ==> (#[trigger] counts[n]).0 > 0 && counts[n].0 == occurrences(
            text,
            counts[n].1,
        )
    &&& forall|m: int, n: int|
        0 <= m < counts.len() && 0 <= n < counts.len() && m != n ==> (#[trigger] counts[m]).1 != (
        #[trigger] counts[n]).1
    &&& forall|key: Key| #[trigger] occurrences(text, key) > 0 ==> listed(counts, key)
}

/// Whether the entries stand from the most frequent key to the least.
pub open spec fn descending(counts: Seq<(usize, Key)>) -> bool {
    forall|m: int, n: int|
        0 <= m < n < counts.len() ==> (#[trigger] counts[m]).0 >= (#[trigger] counts[n]).0
}

/// No key is named more often than the text has characters.
pub proof fn lemma_occurrences_bound(text: Seq<char>, key: Key)
    ensures
        occurrences(text, key) <= text.len(),
    decreases text.len(),
{
    if text.len() > 0 {
        lemma_occurrences_bound(text.drop_last(), key);
    }
}

/// Every character before the first unnamed one names a key.
pub proof fn lemma_first_unnamed(text: Seq<char>, n: int)
    requires
        0 <= n <= text.len(),
        forall|i: int| 0 <= i < n ==> key_of(seq![#[trigger] text[i]]) is Some,
    ensures
        n <= first_unnamed(text) <= text.len(),
        n < text.len() && key_of(seq![text[n]]) is None ==> first_unnamed(text) == n,
    decreases text.len(),
{
    if text.len() > 0 && key_of(seq![text[0]]) is Some {
        let rest = text.drop_first();
        if n > 0 {
            assert forall|i: int| 0 <= i < n - 1 implies key_of(seq![#[trigger] rest[i]])
                is Some by {}
            if n < text.len() {
                assert(rest[n - 1] == text[n]);
            }
            lemma_first_unnamed(rest, n - 1);
        } else {
            lemma_first_unnamed(rest, 0);
        }
    }
}

/// Two entries may change places in a tally.
proof fn lemma_swap_keeps_tally(text: Seq<char>, counts: Seq<(usize, Key)>, a: int, b: int)
    requires
        tallies(text, counts),
        0 <= a < counts.len(),
        0 <= b < counts.len(),
    ensures
        tallies(text, counts.update(a, counts[b]).update(b, counts[a])),
{
    let after = counts.update(a, counts[b]).update(b, counts[a]);
    assert forall|n: int| 0 <= n < after.len() implies after[n] == counts[if n == a {
        b
    } else if n == b {
        a
    } else {
        n
    }] by {}
    assert forall|key: Key| #[trigger] occurrences(text, key) > 0 implies listed(after, key) by {
        let n = choose|n: int| 0 <= n < counts.len() && (#[trigger] counts[n]).1 == key;
        let at = if n == a {
            b
        } else if n == b {
            a
        } else {
            n
        };
        assert(after[at].1 == key);
    }
}

/// The keys that a text names, each with the number of its occurrences, from
/// the most frequent to the least. Keys that occur equally often stand in no
/// particular order.
#[derive(Debug)]
pub struct SortedKeySet {
    keys: Vec<(usize, Key)>,
}

impl View for SortedKeySet {
    type V = Seq<(usize, Key)>;

    closed spec fn view(&self) -> Seq<(usize, Key)> {
        self.keys@
    }
}

/// Counts one more occurrence of `key`.
fn count_one(counts: &mut Vec<(usize, Key)>, key: Key, Ghost(text): Ghost<Seq<char>>, c: char)
    requires
        tallies(text, old(counts)@),
        key_of(seq![c]) == Some(key),
        text.len() < usize::MAX,
    ensures
        tallies(text.push(c), final(counts)@),
{
    let ghost before = counts@;
    let ghost longer = text.push(c);
    assert(longer.drop_last() == text);
    assert forall|k: Key| occurrences(longer, k) == occurrences(text, k) + if k == key {
        1nat
    } else {
        0nat
    } by {}
    let mut n: usize = 0;
    while n < counts.len() && counts[n].1 != key
        invariant
            counts@ == before,
            0 <= n <= counts@.len(),
            forall|m: int| 0 <= m < n ==> (#[trigger] counts@[m]).1 != key,
        decreases counts@.len() - n,
    {
        n += 1;
    }
    if n < counts.len() {
        proof {
            lemma_occurrences_bound(text, key);
        }
        let seen = counts[n].0;
        counts.set(n, (seen + 1, key));
        assert forall|k: Key| #[trigger] occurrences(longer, k) > 0 implies listed(counts@, k) by {
            if k == key {
                assert(counts@[n as int].1 == key);
            } else {
                assert(listed(before, k));
                let m = choose|m: int| 0 <= m < before.len() && (#[trigger] before[m]).1 == k;
                assert(counts@[m].1 == k);
            }
        }
    } else {
        assert(occurrences(text, key) == 0) by {
            if occurrences(text, key) > 0 {
                assert(listed(before, key));
            }
        }
        counts.push((1, key));
        assert forall|k: Key| #[trigger] occurrences(longer, k) > 0 implies listed(counts@, k) by {
            if k == key {
                assert(counts@[n as int].1 == key);
            } else {
                assert(listed(before, k));
                let m = choose|m: int| 0 <= m < before.len() && (#[trigger] before[m]).1 == k;
                assert(counts@[m].1 == k);
            }
        }
    }
}

/// Puts the entries in order, from the largest count to the smallest.
fn sort_descending(counts: &mut Vec<(usize, Key)>, Ghost(text): Ghost<Seq<char>>)
    requires
        tallies(text, old(counts)@),
    ensures
        tallies(text, final(counts)@),
        descending(final(counts)@),
{
    let len = counts.len();
    let mut i: usize = 1;
    while i < len
        invariant
            counts@.len() == len,
            1 <= i,
            tallies(text, counts@),
            forall|m: int, n: int|
                0 <= m < n < i && n < len ==> (#[trigger] counts@[m]).0 >= (#[trigger] counts@[n]).0,
        decreases len - i,
    {
        let mut j: usize = i;
        while j > 0 && counts[j - 1].0 < counts[j].0
            invariant
                counts@.len() == len,
                0 <= j <= i < len,
                tallies(text, counts@),
                forall|m: int, n: int|
                    0 <= m < n <= i && n != j ==> (#[trigger] counts@[m]).0 >= (
                    #[trigger] counts@[n]).0,
            decreases j,
        {
            let upper = counts[j - 1];
            let lower = counts[j];
            proof {
                lemma_swap_keeps_tally(text, counts@, j - 1, j as int);
            }
            counts.set(j - 1, lower);
            counts.set(j, upper);
            j -= 1;
        }
        i += 1;
    }
}

impl SortedKeySet {
    /// The entries, from the most frequent key to the least.
    pub fn keys(&self) -> (keys: &Vec<(usize, Key)>)
        ensures
            keys@ == self@,
    {
        &self.keys
    }
}

impl TryFrom<String> for SortedKeySet {
    type Error = ParseError;

    /// Counts how often each key is named in `value`, character by
    /// character, and puts the keys in the order of their counts. Every
    /// character has to name a key, a space too; the first that names none
    /// makes the error, which holds it.
    fn try_from(value: String) -> (res: Result<SortedKeySet, ParseError>)
        ensures
            match res {
                Ok(set) => {
                    &&& first_unnamed(value@) == value@.len()
                    &&& tallies(value@, set@)
                    &&& descending(set@)
                },
                Err(e) => {
                    &&& first_unnamed(value@) < value@.len()
                    &&& e@ == ParseErrorView::UnrecognizedKeyLiteral(
                        seq![value@[first_unnamed(value@) as int]],
                    )
                },
            },
    {
        let v = chars_of(value.as_str());
        let mut counts: Vec<(usize, Key)> = Vec::new();
        let mut i: usize = 0;
        assert(v@.take(0) == Seq::<char>::empty());
        while i < v.len()
            invariant
                v@ == value@,
                0 <= i <= v@.len(),
                forall|j: int| 0 <= j < i ==> key_of(seq![#[trigger] v@[j]]) is Some,
                tallies(v@.take(i as int), counts@),
            decreases v@.len() - i,
        {
            let c = v[i];
            match Key::from_char(c) {
                None => {
                    proof {
                        lemma_first_unnamed(v@, i as int);
                        assert(v@.subrange(i as int, i + 1) == seq![c]);
                    }
                    return Err(ParseError::key_literal(value.as_str(), i, i + 1));
                },
                Some(key) => {
                    assert(v@.take(i + 1) == v@.take(i as int).push(c));
                    count_one(&mut counts, key, Ghost(v@.take(i as int)), c);
                },
            }
            i += 1;
        }
        proof {
            assert(v@.take(i as int) == v@);
            lemma_first_unnamed(v@, i as int);
        }
        sort_descending(&mut counts, Ghost(v@));
        Ok(SortedKeySet { keys: counts })
    }
}

impl vstd::std_specs::convert::TryFromSpecImpl<String> for SortedKeySet {
    /// Keys that occur equally often may stand in any order, so the result
    /// is no function of the text: the contract is the one of `try_from`.
    open spec fn obeys_try_from_spec() -> bool {
        false
    }

    open spec fn try_from_spec(value: String) -> Result<SortedKeySet, ParseError> {
        Err(ParseError::UnrecognizedKeyLiteral(value))
    }
}

} // verus!
