use typing_effort::error::ParseError;
use typing_effort::kb::{Button, FingerKind, Keyboard};
use typing_effort::keys::Key;

const US: &str = "`\n1\n2\n3\n4\n5\n6\n7\n8\n9\n0\n-\n=\n<BckSp>\n::\
<Tab>\nq\nw\ne\nr\nt\ny\nu\ni\no\np\n[\n]\n\\\n::\
a:Pinky\ns:Ring\nd:Middle\nf:Index\ng\nh\nj:Index\nk:Middle\nl:Ring\n;:Pinky\n'\n<Enter>\n::\
<LShft>\nz\nx\nc\nv\nb\nn\nm\n,\n.\n/\n::\
<LCtrl>\n<LAlt>\n<Space>:Thumb\n<RAlt>\n<RCtrl>\n";

fn score(kb: &Keyboard, text: &str) -> f32 {
    kb.judge(text).unwrap() as f32 / 100.0
}

#[test]
fn nothing_and_a_space_cost_nothing() {
    let kb = Keyboard::from_layout(US).unwrap();
    assert_eq!(kb.judge(""), Ok(0));
    assert_eq!(kb.judge(" "), Ok(0));
    assert_eq!(kb.judge("     "), Ok(0));
    assert_eq!(score(&kb, ""), 0.0);
    assert_eq!(score(&kb, " "), 0.0);
}

#[test]
fn nothing_and_a_space_cost_nothing_without_fingers() {
    let kb = Keyboard::from_layout("a\nb::c").unwrap();
    assert_eq!(kb.try_judge(""), Some(Ok(0)));
    assert_eq!(kb.try_judge(" "), Some(Ok(0)));
    assert_eq!(kb.judge("  "), Ok(0));
}

#[test]
fn a_borrowed_finger_in_a_single_row() {
    let kb = Keyboard::from_layout("A:Index\nB").unwrap();
    // one column and the row's weight of 1.0 away, times the row's weight and the finger's 0.0
    assert_eq!(kb.judge("B"), Ok(200));
    assert_eq!(score(&kb, "B"), (1.0 + 1.0) * (1.0 + 0.0));
    assert_eq!(kb.judge("b"), Ok(200));
    assert_eq!(kb.judge("A"), Ok(0));
}

#[test]
fn a_borrowed_finger_in_the_home_row() {
    let kb = Keyboard::from_layout("::::A:Index\nB").unwrap();
    assert_eq!(kb.rows().len(), 3);
    assert_eq!(kb.judge("B"), Ok(0));
    assert_eq!(score(&kb, "B"), 1.0 * (0.0 + 0.0));
}

#[test]
fn each_formula_has_its_value() {
    let kb = Keyboard::from_layout("::a:Pinky\nb\nc\nd").unwrap();
    // row weight 0.3, finger weight 0.8
    assert_eq!(kb.judge("b"), Ok(13 * 11));
    assert_eq!(kb.judge("c"), Ok(23 * 11));
    assert_eq!(kb.judge("d"), Ok(33 * 11));
    assert_eq!(kb.judge("bcd"), Ok(13 * 11 + 23 * 11 + 33 * 11));
    assert_eq!(kb.judge("a"), Ok(0));
    assert_eq!(score(&kb, "b"), 1.43);
}

#[test]
fn keys_with_a_finger_cost_nothing() {
    let kb = Keyboard::from_layout(US).unwrap();
    assert_eq!(kb.judge("asdf jkl; ASDF JKL:"), Ok(0));
    let all = Keyboard::from_layout("q:Ring\nw:Index::a:Pinky").unwrap();
    assert_eq!(all.judge("qwa aqw QWA"), Ok(0));
}

#[test]
fn keys_that_the_keyboard_lacks_cost_nothing() {
    let kb = Keyboard::from_layout("a:Index\nb").unwrap();
    assert_eq!(kb.judge("xyz"), Ok(0));
    assert_eq!(kb.judge("xbz"), Ok(200));
}

#[test]
fn every_row_that_has_the_key_charges() {
    let kb = Keyboard::from_layout("q\nb::q\nw\nb::a:Ring\nb").unwrap();
    // the one finger stands in column 0 and weighs 0.5; b stands in columns 1, 2 and 1
    // row 0: (10 + 10) * (10 + 5), row 1: (20 + 3) * (3 + 5), row 2: (10 + 0) * (0 + 5)
    assert_eq!(kb.judge("b"), Ok(20 * 15 + 23 * 8 + 10 * 5));
    assert_eq!(kb.judge("bb"), Ok(2 * (20 * 15 + 23 * 8 + 10 * 5)));
}

#[test]
fn ties_go_to_the_first_button_gone_through() {
    // g in column 2; fingers in columns 1 and 3 of the same row
    let kb = Keyboard::from_layout("::::x\na:Pinky\ng\nb:Index").unwrap();
    assert_eq!(kb.judge("g"), Ok(10 * 8));
    let kb = Keyboard::from_layout("::::x\na:Index\ng\nb:Pinky").unwrap();
    assert_eq!(kb.judge("g"), Ok(0));
    // an upper row is gone through first
    let kb = Keyboard::from_layout("x\ny\nz\nb:Thumb::::q\na:Index\ng").unwrap();
    assert_eq!(kb.judge("g"), Ok(10 * 10));
    // but a nearer button wins wherever it stands
    let kb = Keyboard::from_layout("x\ny\nz\nw\nb:Thumb::::q\na:Index\ng").unwrap();
    assert_eq!(kb.judge("g"), Ok(0));
}

#[test]
fn find_closest_finger_gives_button_and_distance() {
    let kb = Keyboard::from_layout("q\nw:Ring\ne::a:Pinky\ns\nd\nf:Index").unwrap();
    let probe = Button { idx: 2, finger: None };
    let (closest, dist) = kb.find_closest_finger(&probe, 0);
    assert_eq!(closest.idx, 1);
    assert_eq!(closest.finger.as_ref().unwrap().kind, FingerKind::Ring);
    assert_eq!(dist, 10 + 10);
    let (closest, dist) = kb.find_closest_finger(&probe, 1);
    assert_eq!(closest.idx, 1);
    assert_eq!(dist, 10 + 3);
    let far = Button { idx: 7, finger: None };
    let (closest, dist) = kb.find_closest_finger(&far, 1);
    assert_eq!(closest.idx, 3);
    assert_eq!(closest.finger.as_ref().unwrap().kind, FingerKind::Index);
    assert_eq!(dist, 40 + 3);
    let first = Button { idx: 0, finger: None };
    let (closest, dist) = kb.find_closest_finger(&first, 0);
    assert_eq!(closest.finger.as_ref().unwrap().kind, FingerKind::Pinky);
    assert_eq!(dist, 10);
    assert_eq!(dist as f32 / 10.0, 0.0 + 1.0);
}

#[test]
fn an_unknown_character_stops_the_scoring() {
    let kb = Keyboard::from_layout(US).unwrap();
    assert_eq!(
        kb.judge("abc€def"),
        Err(ParseError::UnrecognizedKeyLiteral("€".to_string()))
    );
    assert_eq!(
        kb.judge("ab\ncd\t"),
        Err(ParseError::UnrecognizedKeyLiteral("\n".to_string()))
    );
    assert_eq!(kb.try_judge("é"), Some(Err(ParseError::UnrecognizedKeyLiteral("é".to_string()))));
}

#[test]
fn a_keyboard_without_fingers_cannot_lend_one() {
    let kb = Keyboard::from_layout("a\nb::c").unwrap();
    assert!(!kb.has_assigned_finger());
    assert_eq!(kb.try_judge("a"), None);
    assert_eq!(kb.try_judge("  c"), None);
    assert_eq!(kb.try_judge("xyzb"), None);
    assert_eq!(kb.try_judge("a€"), None);
    // a key that the keyboard lacks comes to no button
    assert_eq!(kb.try_judge("xyz"), Some(Ok(0)));
    // and an unknown character ends the reading before a button is come to
    assert_eq!(
        kb.try_judge("x€a"),
        Some(Err(ParseError::UnrecognizedKeyLiteral("€".to_string())))
    );
    let empty = Keyboard::from_layout("").unwrap();
    assert_eq!(empty.try_judge("hello world"), Some(Ok(0)));
}

#[test]
fn try_judge_agrees_with_judge() {
    let kb = Keyboard::from_layout(US).unwrap();
    for text in ["", "hello world", "The Quick Brown Fox!", "x€", "1234567890-="] {
        assert_eq!(kb.try_judge(text), Some(kb.judge(text)));
    }
}

#[test]
fn the_order_of_the_characters_does_not_count() {
    let kb = Keyboard::from_layout(US).unwrap();
    let a = kb.judge("the quick brown fox").unwrap();
    assert_eq!(kb.judge("xof nworb kciuq eht"), Ok(a));
    assert_eq!(kb.judge("  thequickbrownfox "), Ok(a));
    let b = kb.judge("the quick").unwrap();
    let c = kb.judge(" brown fox").unwrap();
    assert_eq!(a, b + c);
    assert!(a > 0);
}

#[test]
fn parsing_twice_scores_alike() {
    let one = Keyboard::from_layout(US).unwrap();
    let two = Keyboard::from_layout(US).unwrap();
    for text in ["", "hello world", "ZXCVBNM<>?", "g h g h", "12345"] {
        assert_eq!(one.judge(text), two.judge(text));
    }
}

#[test]
fn a_score_on_the_sample_layout() {
    let kb = Keyboard::from_layout(US).unwrap();
    // g: column 4 of the home row, next to f (Index) in column 3
    assert_eq!(kb.judge("g"), Ok(10 * 0));
    // q: column 1 of row 1; nearest fingers in column 1: s (Ring)
    assert_eq!(kb.judge("q"), Ok((0 + 3) * (3 + 5)));
    // 1: column 1 of row 0; s again
    assert_eq!(kb.judge("1"), Ok((0 + 10) * (10 + 5)));
    // z: column 1 of row 3
    assert_eq!(kb.judge("z"), Ok((0 + 5) * (5 + 5)));
    // <BckSp> cannot be typed as text, but p can: column 10, nearest is column 9 (; Pinky)
    assert_eq!(kb.judge("p"), Ok((10 + 3) * (3 + 8)));
    assert_eq!(kb.judge("Q1zp"), Ok(24 + 150 + 50 + 143));
    assert_eq!(kb.has_key(Key::Backspace), true);
}
