use std::str::FromStr;
use typing_effort::error::ParseError;
use typing_effort::keys::{Key, SortedKeySet};
use typing_effort::parse_line;

#[test]
fn letters_parse_in_both_cases() {
    let upper = "QWERTYUIOPASDFGHJKLZXCVBNM";
    let keys = [
        Key::Q, Key::W, Key::E, Key::R, Key::T, Key::Y, Key::U, Key::I, Key::O, Key::P, Key::A,
        Key::S, Key::D, Key::F, Key::G, Key::H, Key::J, Key::K, Key::L, Key::Z, Key::X, Key::C,
        Key::V, Key::B, Key::N, Key::M,
    ];
    for (c, key) in upper.chars().zip(keys) {
        assert_eq!(Key::from_str(&c.to_string()), Ok(key));
        assert_eq!(Key::from_str(&c.to_ascii_lowercase().to_string()), Ok(key));
        assert_eq!(Key::from_char(c), Some(key));
        assert_eq!(Key::from_char(c.to_ascii_lowercase()), Some(key));
    }
}

#[test]
fn digits_parse_plain_and_shifted() {
    let forms = [
        ("1", "!", Key::Num1), ("2", "@", Key::Num2), ("3", "#", Key::Num3),
        ("4", "$", Key::Num4), ("5", "%", Key::Num5), ("6", "^", Key::Num6),
        ("7", "&", Key::Num7), ("8", "*", Key::Num8), ("9", "(", Key::Num9),
        ("0", ")", Key::Num0),
    ];
    for (plain, shifted, key) in forms {
        assert_eq!(Key::from_str(plain), Ok(key));
        assert_eq!(Key::from_str(shifted), Ok(key));
        assert_eq!(Key::from_str(plain), Key::from_str(shifted));
    }
}

#[test]
fn one_and_bang_are_the_same_key() {
    assert_eq!(Key::from_str("1"), Key::from_str("!"));
    assert_eq!(Key::from_str("1"), Ok(Key::Num1));
}

#[test]
fn punctuation_parses_plain_and_shifted() {
    let forms = [
        (",", "<", Key::Comma), (".", ">", Key::Period), ("/", "?", Key::ForSlash),
        ("\\", "|", Key::BackSlash), (";", ":", Key::Semicolon), ("'", "\"", Key::SingleQuote),
        ("`", "~", Key::Tick), ("-", "_", Key::Minus), ("=", "+", Key::Equal),
        ("[", "{", Key::LBracket), ("]", "}", Key::RBracket),
    ];
    for (plain, shifted, key) in forms {
        assert_eq!(Key::from_str(plain), Ok(key));
        assert_eq!(Key::from_str(shifted), Ok(key));
    }
}

#[test]
fn named_keys_parse_whatever_the_case() {
    let forms = [
        ("<BckSp>", Key::Backspace), ("<Enter>", Key::Enter), ("<LShft>", Key::Shift),
        ("<RShft>", Key::Shift), ("<LCtrl>", Key::Ctrl), ("<RCtrl>", Key::Ctrl),
        ("<LAlt>", Key::Alt), ("<RAlt>", Key::Alt), ("<Tab>", Key::Tab), ("<Esc>", Key::Esc),
        ("<Up>", Key::Up), ("<Down>", Key::Down), ("<Right>", Key::Right),
        ("<Left>", Key::Left), ("<Space>", Key::Space),
    ];
    for (name, key) in forms {
        assert_eq!(Key::from_str(name), Ok(key));
        assert_eq!(Key::from_str(&name.to_ascii_lowercase()), Ok(key));
        assert_eq!(Key::from_str(&name.to_ascii_uppercase()), Ok(key));
    }
}

#[test]
fn unknown_literals_are_refused_with_their_text() {
    for text in ["", " ", "ab", "<BckSp", "BckSp", "<Space> ", " a", "<>", "é", "\t", "<Shift>", "Q "] {
        assert_eq!(
            Key::from_str(text),
            Err(ParseError::UnrecognizedKeyLiteral(text.to_string()))
        );
    }
}

#[test]
fn unknown_characters_name_no_key() {
    for c in [' ', '\n', 'é', 'ß', '\u{212A}', '\u{0}', '€'] {
        assert_eq!(Key::from_char(c), None);
    }
}

#[test]
fn every_character_agrees_with_its_string() {
    for n in 0u32..0x3000 {
        if let Some(c) = char::from_u32(n) {
            assert_eq!(Key::from_char(c), Key::from_str(&c.to_string()).ok());
        }
    }
}

#[test]
fn error_gives_back_the_literal() {
    let e = Key::from_str("nope").unwrap_err();
    assert_eq!(e.literal(), "nope");
}

#[test]
fn sorted_key_set_counts_and_orders() {
    let set = SortedKeySet::try_from("abcabaBb!1".to_string()).unwrap();
    let keys = set.keys();
    assert_eq!(keys.len(), 4);
    assert_eq!(keys[0], (4, Key::B));
    assert_eq!(keys[1], (3, Key::A));
    assert_eq!(keys[2], (2, Key::Num1));
    assert_eq!(keys[3], (1, Key::C));
}

#[test]
fn sorted_key_set_is_descending_and_complete() {
    let text = "the quick brown fox jumps over the lazy dog".replace(' ', "");
    let set = SortedKeySet::try_from(text.clone()).unwrap();
    let keys = set.keys();
    for pair in keys.windows(2) {
        assert!(pair[0].0 >= pair[1].0);
    }
    assert_eq!(keys.iter().map(|e| e.0).sum::<usize>(), text.chars().count());
    for (n, key) in keys.iter() {
        let seen = text.chars().filter(|c| Key::from_char(*c) == Some(*key)).count();
        assert_eq!(*n, seen);
    }
    assert_eq!(keys.len(), 26);
    assert_eq!(keys[0], (4, Key::O));
}

#[test]
fn sorted_key_set_of_nothing_is_empty() {
    let set = SortedKeySet::try_from(String::new()).unwrap();
    assert!(set.keys().is_empty());
}

#[test]
fn sorted_key_set_refuses_the_first_unknown_character() {
    assert_eq!(
        SortedKeySet::try_from("ab c€".to_string()).unwrap_err(),
        ParseError::UnrecognizedKeyLiteral(" ".to_string())
    );
    assert_eq!(
        SortedKeySet::try_from("€ ".to_string()).unwrap_err(),
        ParseError::UnrecognizedKeyLiteral("€".to_string())
    );
}

#[test]
fn parse_line_reads_what_follows_the_mark() {
    assert_eq!(parse_line("12:00 > a"), Some(Key::A));
    assert_eq!(parse_line(">a"), Some(Key::A));
    assert_eq!(parse_line("x >   <Enter>\t"), Some(Key::Enter));
    assert_eq!(parse_line("x > >"), Some(Key::Period));
    assert_eq!(parse_line("x >"), Some(Key::Space));
    assert_eq!(parse_line("x >   "), Some(Key::Space));
    assert_eq!(parse_line("no mark"), None);
    assert_eq!(parse_line(""), None);
    assert_eq!(parse_line("x > ab"), None);
    assert_eq!(parse_line("x > a b"), None);
}
