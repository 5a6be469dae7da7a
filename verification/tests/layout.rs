use std::str::FromStr;
use typing_effort::error::ParseError;
use typing_effort::kb::{row_weight, Finger, FingerKind, Keyboard, Row};
use typing_effort::keys::Key;

#[test]
fn finger_kinds_parse_letter_for_letter() {
    assert_eq!(FingerKind::from_str("Thumb"), Ok(FingerKind::Thumb));
    assert_eq!(FingerKind::from_str("Ring"), Ok(FingerKind::Ring));
    assert_eq!(FingerKind::from_str("Middle"), Ok(FingerKind::Middle));
    assert_eq!(FingerKind::from_str("Index"), Ok(FingerKind::Index));
    assert_eq!(FingerKind::from_str("Pinky"), Ok(FingerKind::Pinky));
    for label in ["thumb", "INDEX", "", " Index", "Index ", "Pinkie", "Ringo", "Rin"] {
        assert_eq!(
            FingerKind::from_str(label),
            Err(ParseError::UnrecognizedFingerLabel(label.to_string()))
        );
    }
}

#[test]
fn fingers_carry_the_weight_of_their_kind() {
    let weights = [
        ("Index", 0, 0.0),
        ("Middle", 2, 0.2),
        ("Ring", 5, 0.5),
        ("Pinky", 8, 0.8),
        ("Thumb", 10, 1.0),
    ];
    for (label, tenths, weight) in weights {
        let finger = Finger::try_from(label.to_string()).unwrap();
        assert_eq!(finger.weight, tenths);
        assert_eq!(finger.kind, FingerKind::from_str(label).unwrap());
        assert_eq!(finger.kind.effort(), tenths);
        assert_eq!(finger.weight as f32 / 10.0, weight);
    }
    assert_eq!(Finger::new(FingerKind::Ring).weight, 5);
    assert_eq!(
        Finger::try_from("ring".to_string()).unwrap_err(),
        ParseError::UnrecognizedFingerLabel("ring".to_string())
    );
}

#[test]
fn row_weights_from_the_top() {
    let tenths: Vec<u32> = (0..5).map(row_weight).collect();
    assert_eq!(tenths, vec![10, 3, 0, 5, 7]);
}

#[test]
fn a_row_counts_its_non_empty_lines() {
    let row = Row::from_layout("q\n\nw:Ring\n\n\n  e  \nr:Index\n", 3).unwrap();
    assert_eq!(row.weight(), 3);
    assert_eq!(row.len(), 4);
    let q = row.get(Key::Q).unwrap();
    assert_eq!(q.idx, 0);
    assert!(q.finger.is_none());
    let w = row.get(Key::W).unwrap();
    assert_eq!(w.idx, 1);
    assert_eq!(w.finger.as_ref().unwrap().kind, FingerKind::Ring);
    assert_eq!(w.finger.as_ref().unwrap().weight, 5);
    let e = row.get(Key::E).unwrap();
    assert_eq!(e.idx, 2);
    assert!(e.finger.is_none());
    let r = row.get(Key::R).unwrap();
    assert_eq!(r.idx, 3);
    assert_eq!(r.finger.as_ref().unwrap().kind, FingerKind::Index);
    assert!(row.get(Key::T).is_none());
}

#[test]
fn an_empty_row_is_allowed() {
    for text in ["", "\n", "\n\n\n", "\r\n\r\n"] {
        let row = Row::from_layout(text, 7).unwrap();
        assert_eq!(row.len(), 0);
        assert_eq!(row.weight(), 7);
    }
}

#[test]
fn a_later_line_replaces_an_earlier_one_for_the_same_key() {
    let row = Row::from_layout("a:Index\nb\nA\n1\n!:Thumb", 0).unwrap();
    assert_eq!(row.len(), 3);
    let a = row.get(Key::A).unwrap();
    assert_eq!(a.idx, 2);
    assert!(a.finger.is_none());
    assert_eq!(row.get(Key::B).unwrap().idx, 1);
    let one = row.get(Key::Num1).unwrap();
    assert_eq!(one.idx, 4);
    assert_eq!(one.finger.as_ref().unwrap().kind, FingerKind::Thumb);
}

#[test]
fn rows_take_windows_line_ends() {
    let row = Row::from_layout("a:Index\r\n\r\nb\r\n<Tab>:Pinky\r\n", 0).unwrap();
    assert_eq!(row.len(), 3);
    assert_eq!(row.get(Key::A).unwrap().idx, 0);
    assert_eq!(row.get(Key::B).unwrap().idx, 1);
    assert_eq!(row.get(Key::Tab).unwrap().idx, 2);
}

#[test]
fn a_row_refuses_the_first_bad_line() {
    let key = |s: &str| ParseError::UnrecognizedKeyLiteral(s.to_string());
    let finger = |s: &str| ParseError::UnrecognizedFingerLabel(s.to_string());
    assert_eq!(Row::from_layout("a\nbb\ncc", 0).unwrap_err(), key("bb"));
    assert_eq!(Row::from_layout("a\n  bb \ncc", 0).unwrap_err(), key("bb"));
    assert_eq!(Row::from_layout("a\n   \nb", 0).unwrap_err(), key(""));
    assert_eq!(Row::from_layout("a:index", 0).unwrap_err(), finger("index"));
    assert_eq!(Row::from_layout("a: Index", 0).unwrap_err(), finger(" Index"));
    assert_eq!(Row::from_layout("a :Index", 0).unwrap_err(), key("a "));
    assert_eq!(Row::from_layout("xy:nope", 0).unwrap_err(), key("xy"));
    assert_eq!(Row::from_layout(":", 0).unwrap_err(), key(""));
    assert_eq!(Row::from_layout("::Index", 0).unwrap_err(), key(""));
    assert_eq!(Row::from_layout("a:Index:", 0).unwrap_err(), finger("Index:"));
    assert_eq!(Row::from_layout("a:Index\r", 0).unwrap_err(), finger("Index\r"));
    assert_eq!(Row::from_layout("a:\nzz", 0).unwrap_err(), finger(""));
}

#[test]
fn a_semicolon_key_can_have_a_finger() {
    let row = Row::from_layout(";:Pinky", 0).unwrap();
    assert_eq!(row.get(Key::Semicolon).unwrap().finger.as_ref().unwrap().kind, FingerKind::Pinky);
}

#[test]
fn five_blocks_give_five_rows() {
    let kb = Keyboard::from_layout("1\n2::q:Pinky\nw::a\ns::z::<Space>:Thumb").unwrap();
    let rows = kb.rows();
    assert_eq!(rows.len(), 5);
    let tenths: Vec<u32> = rows.iter().map(|r| r.weight()).collect();
    assert_eq!(tenths, vec![10, 3, 0, 5, 7]);
    let sizes: Vec<usize> = rows.iter().map(|r| r.len()).collect();
    assert_eq!(sizes, vec![2, 2, 2, 1, 1]);
    assert_eq!(rows[4].get(Key::Space).unwrap().finger.as_ref().unwrap().weight, 10);
    assert_eq!(rows[1].get(Key::W).unwrap().idx, 1);
}

#[test]
fn fewer_blocks_take_the_first_weights() {
    let kb = Keyboard::from_layout("").unwrap();
    assert_eq!(kb.rows().len(), 1);
    assert_eq!(kb.rows()[0].weight(), 10);
    assert_eq!(kb.rows()[0].len(), 0);
    let kb = Keyboard::from_layout("a::b").unwrap();
    assert_eq!(kb.rows().iter().map(|r| r.weight()).collect::<Vec<u32>>(), vec![10, 3]);
    let kb = Keyboard::from_layout("a::b::c::d").unwrap();
    assert_eq!(kb.rows().iter().map(|r| r.weight()).collect::<Vec<u32>>(), vec![10, 3, 0, 5]);
}

#[test]
fn blocks_after_the_fifth_are_not_read() {
    let kb = Keyboard::from_layout("a::b::c::d::e::not a key::f").unwrap();
    assert_eq!(kb.rows().len(), 5);
    assert!(kb.rows()[4].get(Key::E).is_some());
    assert!(!kb.has_key(Key::F));
}

#[test]
fn a_keyboard_refuses_the_first_bad_block() {
    assert_eq!(
        Keyboard::from_layout("a::b\nxx::yy").unwrap_err(),
        ParseError::UnrecognizedKeyLiteral("xx".to_string())
    );
    assert_eq!(
        Keyboard::from_layout("a:Index::b:Nose::yy").unwrap_err(),
        ParseError::UnrecognizedFingerLabel("Nose".to_string())
    );
    assert_eq!(
        Keyboard::from_layout("a:::b").unwrap_err(),
        ParseError::UnrecognizedKeyLiteral("".to_string())
    );
}

#[test]
fn the_same_key_may_stand_in_several_rows() {
    let kb = Keyboard::from_layout("a::a:Index::a").unwrap();
    assert!(kb.rows()[0].get(Key::A).unwrap().finger.is_none());
    assert!(kb.rows()[1].get(Key::A).unwrap().finger.is_some());
    assert!(kb.rows()[2].get(Key::A).unwrap().finger.is_none());
    assert!(kb.has_key(Key::A));
    assert!(!kb.has_key(Key::B));
    assert!(kb.has_assigned_finger());
    assert!(!Keyboard::from_layout("a::b").unwrap().has_assigned_finger());
}
