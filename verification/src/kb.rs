//! The keyboard: rows of buttons, and the fingers assigned to them.

use crate::effort::{
    button_at, capped, distance, finger_at, first_unrecognized, gap, has_finger, is_nearest,
    key_effort, key_effort_upto, leads, lemma_capped_sum, lemma_effort_of_push,
    lemma_first_unrecognized, lemma_nearest_is, nearest, on_keyboard, reaches, recognized,
    row_effort, stranded, text_effort,
};
use crate::error::{ParseError, ParseErrorView};
use crate::keys::{key_of, Key};
use crate::layout::{
    assign, button_of_line, buttons_of_lines, count_filled, distinct_keys, holds_key,
    keyboard_valid, lemma_block_error_stays, lemma_buttons_in_order, lemma_line_error_stays,
    lemma_rows_of_blocks, parse_layout, parse_row, row_blocks, row_valid, rows_of_blocks, slot_of,
    top_down_weight, ButtonModel, RowModel,
};
use crate::text::{
    block_spans, blocks, chars_of, find_char, line_spans, lines, span_eq, spans_are, trim_span,
};
use vstd::prelude::*;

verus! {

/// The fingers of a hand, by kind.
#[derive(Debug, Clone, Copy, PartialEq, Eq, Hash, Structural)]
pub enum FingerKind {
    Thumb,
    Ring,
    Middle,
    Index,
    Pinky,
}

impl FingerKind {
    /// The label that stands for this kind in a layout.
    pub open spec fn label(self) -> Seq<char> {
        match self {
            FingerKind::Thumb => seq!['T', 'h', 'u', 'm', 'b'],
            FingerKind::Ring => seq!['R', 'i', 'n', 'g'],
            FingerKind::Middle => seq!['M', 'i', 'd', 'd', 'l', 'e'],
            FingerKind::Index => seq!['I', 'n', 'd', 'e', 'x'],
            FingerKind::Pinky => seq!['P', 'i', 'n', 'k', 'y'],
        }
    }

    /// The effort of a finger of this kind, in tenths.
    pub open spec fn weight(self) -> nat {
        match self {
            FingerKind::Index => 0,
            FingerKind::Middle => 2,
            FingerKind::Ring => 5,
            FingerKind::Pinky => 8,
            FingerKind::Thumb => 10,
        }
    }

    /// The effort of a finger of this kind, in tenths.
    pub fn effort(self) -> (w: u32)
        ensures
            w == self.weight(),
    {
        match self {
            FingerKind::Index => 0,
            FingerKind::Middle => 2,
            FingerKind::Ring => 5,
            FingerKind::Pinky => 8,
            FingerKind::Thumb => 10,
        }
    }

    /// The kind with the label in the span `[lo, hi)` of `v`, if any.
    pub fn from_span(v: &Vec<char>, lo: usize, hi: usize) -> (r: Option<FingerKind>)
        requires
            lo <= hi <= v@.len(),
        ensures
            r == finger_kind_of(v@.subrange(lo as int, hi as int)),
    {
        proof {
            reveal_strlit("Thumb");
            reveal_strlit("Ring");
            reveal_strlit("Middle");
            reveal_strlit("Index");
            reveal_strlit("Pinky");
            assert("Thumb"@ =~= FingerKind::Thumb.label());
            assert("Ring"@ =~= FingerKind::Ring.label());
            assert("Middle"@ =~= FingerKind::Middle.label());
            assert("Index"@ =~= FingerKind::Index.label());
            assert("Pinky"@ =~= FingerKind::Pinky.label());
        }
        if span_eq(v, lo, hi, "Thumb") {
            Some(FingerKind::Thumb)
        } else if span_eq(v, lo, hi, "Ring") {
            Some(FingerKind::Ring)
        } else if span_eq(v, lo, hi, "Middle") {
            Some(FingerKind::Middle)
        } else if span_eq(v, lo, hi, "Index") {
            Some(FingerKind::Index)
        } else if span_eq(v, lo, hi, "Pinky") {
            Some(FingerKind::Pinky)
        } else {
            None
        }
    }
}

/// The kind of finger that `label` stands for, letter for letter.
pub open spec fn finger_kind_of(label: Seq<char>) -> Option<FingerKind> {
    if label == FingerKind::Thumb.label() {
        Some(FingerKind::Thumb)
    } else if label == FingerKind::Ring.label() {
        Some(FingerKind::Ring)
    } else if label == FingerKind::Middle.label() {
        Some(FingerKind::Middle)
    } else if label == FingerKind::Index.label() {
        Some(FingerKind::Index)
    } else if label == FingerKind::Pinky.label() {
        Some(FingerKind::Pinky)
    } else {
        None
    }
}

impl core::str::FromStr for FingerKind {
    type Err = ParseError;

    /// Parses a finger label. Case counts; the error holds `s`.
    fn from_str(s: &str) -> (res: Result<FingerKind, ParseError>)
        ensures
            match res {
                Ok(kind) => finger_kind_of(s@) == Some(kind),
                Err(e) => finger_kind_of(s@) is None && e@
                    == ParseErrorView::UnrecognizedFingerLabel(s@),
            },
    {
        let v = chars_of(s);
        assert(v@.subrange(0, v@.len() as int) =~= s@);
        match FingerKind::from_span(&v, 0, v.len()) {
            Some(kind) => Ok(kind),
            None => Err(ParseError::UnrecognizedFingerLabel(s.to_owned())),
        }
    }
}

/// A finger: its kind, and the effort that the kind stands for, in tenths.
#[derive(Debug)]
pub struct Finger {
    pub kind: FingerKind,
    pub weight: u32,
}

impl View for Finger {
    type V = FingerKind;

    open spec fn view(&self) -> FingerKind {
        self.kind
    }
}

impl Finger {
    /// The weight is the one of the kind.
    pub open spec fn wf(&self) -> bool {
        self.weight == self@.weight()
    }

    /// The finger of the given kind, as contracts speak of it.
    pub open spec fn of_kind(kind: FingerKind) -> Finger {
        Finger { kind, weight: kind.weight() as u32 }
    }

    /// The finger of the given kind.
    pub fn new(kind: FingerKind) -> (finger: Finger)
        ensures
            finger == Finger::of_kind(kind),
            finger@ == kind,
            finger.wf(),
    {
        Finger { kind, weight: kind.effort() }
    }

}

impl TryFrom<String> for Finger {
    type Error = ParseError;

    /// The finger that the label `value` stands for, with the weight of its
    /// kind. The error holds `value`.
    fn try_from(value: String) -> (res: Result<Finger, ParseError>)
        ensures
            match res {
                Ok(finger) => finger.wf() && finger_kind_of(value@) == Some(finger@),
                Err(e) => finger_kind_of(value@) is None && e@
                    == ParseErrorView::UnrecognizedFingerLabel(value@),
            },
    {
        let v = chars_of(value.as_str());
        assert(v@.subrange(0, v@.len() as int) =~= value@);
        match FingerKind::from_span(&v, 0, v.len()) {
            Some(kind) => Ok(Finger::new(kind)),
            None => Err(ParseError::UnrecognizedFingerLabel(value)),
        }
    }
}

impl vstd::std_specs::convert::TryFromSpecImpl<String> for Finger {
    open spec fn obeys_try_from_spec() -> bool {
        true
    }

    open spec fn try_from_spec(value: String) -> Result<Finger, ParseError> {
        match finger_kind_of(value@) {
            Some(kind) => Ok(Finger::of_kind(kind)),
            None => Err(ParseError::UnrecognizedFingerLabel(value)),
        }
    }
}

/// A place for a key in a row: its column, and the finger assigned to it.
/// A button without finger is reached with the finger of another button.
#[derive(Debug)]
pub struct Button {
    pub idx: usize,
    pub finger: Option<Finger>,
}

impl View for Button {
    type V = ButtonModel;

    open spec fn view(&self) -> ButtonModel {
        ButtonModel {
            idx: self.idx as nat,
            finger: match self.finger {
                Some(finger) => Some(finger@),
                None => None,
            },
        }
    }
}

impl Button {
    /// The finger, if there is one, has the weight of its kind.
    pub open spec fn wf(&self) -> bool {
        self.finger matches Some(finger) ==> finger.wf()
    }
}

/// The model of the buttons of a row, each with its key.
pub open spec fn entries_view(entries: Seq<(Key, Button)>) -> Seq<(Key, ButtonModel)> {
    entries.map_values(|e: (Key, Button)| (e.0, e.1@))
}

/// One row of the keyboard: a button for each of its keys, and its weight in
/// tenths.
#[derive(Debug)]
pub struct Row {
    entries: Vec<(Key, Button)>,
    weight: u32,
}

impl View for Row {
    type V = RowModel;

    closed spec fn view(&self) -> RowModel {
        RowModel { buttons: entries_view(self.entries@), weight: self.weight as nat }
    }
}

/// Gives `key` the button `button` in `entries`.
fn place(entries: &mut Vec<(Key, Button)>, key: Key, button: Button)
    requires
        distinct_keys(entries_view(old(entries)@)),
        forall|i: int| 0 <= i < old(entries)@.len() ==> (#[trigger] old(entries)@[i]).1.wf(),
        button.wf(),
    ensures
        entries_view(final(entries)@) == assign(entries_view(old(entries)@), key, button@),
        forall|i: int| 0 <= i < final(entries)@.len() ==> (#[trigger] final(entries)@[i]).1.wf(),
{
    let ghost before = entries_view(entries@);
    let mut i: usize = 0;
    while i < entries.len() && entries[i].0 != key
        invariant
            0 <= i <= entries@.len(),
            forall|j: int| 0 <= j < i ==> (#[trigger] entries@[j]).0 != key,
        decreases entries@.len() - i,
    {
        i += 1;
    }
    if i < entries.len() {
        assert(before[i as int].0 == key);
        entries.remove(i);
    }
    entries.push((key, button));
}

/// The key and the finger that the non-empty line in the span `[lo, hi)` of
/// `v` stands for.
fn button_from_span(source: &str, v: &Vec<char>, lo: usize, hi: usize) -> (res: Result<
    (Key, Option<Finger>),
    ParseError,
>)
    requires
        v@ == source@,
        lo <= hi <= v@.len(),
    ensures
        match res {
            Ok((key, finger)) => {
                &&& finger matches Some(f) ==> f.wf()
                &&& button_of_line(v@.subrange(lo as int, hi as int)) == Ok::<
                    (Key, Option<FingerKind>),
                    ParseErrorView,
                >(
                    (
                        key,
                        match finger {
                            Some(f) => Some(f@),
                            None => None,
                        },
                    ),
                )
            },
            Err(e) => button_of_line(v@.subrange(lo as int, hi as int)) == Err::<
                (Key, Option<FingerKind>),
                ParseErrorView,
            >(e@),
        },
{
    let ghost line = v@.subrange(lo as int, hi as int);
    let colon = find_char(v, lo, hi, ':');
    if colon == hi {
        let (a, b) = trim_span(v, lo, hi);
        match Key::from_span(v, a, b) {
            Some(key) => Ok((key, None)),
            None => Err(ParseError::key_literal(source, a, b)),
        }
    } else {
        assert(line.take(colon - lo) == v@.subrange(lo as int, colon as int));
        assert(line.skip(colon - lo + 1) == v@.subrange(colon + 1, hi as int));
        match Key::from_span(v, lo, colon) {
            None => Err(ParseError::key_literal(source, lo, colon)),
            Some(key) => match FingerKind::from_span(v, colon + 1, hi) {
                None => Err(ParseError::finger_label(source, colon + 1, hi)),
                Some(kind) => Ok((key, Some(Finger::new(kind)))),
            },
        }
    }
}

impl Row {
    /// The buttons have distinct keys, stand in the order of their columns,
    /// and their fingers have the weights of their kinds.
    pub closed spec fn wf(&self) -> bool {
        &&& row_valid(self@)
        &&& forall|i: int| 0 <= i < self.entries@.len() ==> (#[trigger] self.entries@[i]).1.wf()
    }

    /// A well-formed row is a valid one.
    pub proof fn lemma_wf_is_valid(&self)
        requires
            self.wf(),
        ensures
            row_valid(self@),
    {
    }

    /// The number of buttons in the row.
    pub fn len(&self) -> (n: usize)
        ensures
            n == self@.buttons.len(),
    {
        self.entries.len()
    }

    /// The weight of the row, in tenths.
    pub fn weight(&self) -> (w: u32)
        ensures
            w == self@.weight,
    {
        self.weight
    }

    /// The button of `key` in this row, if the row has one.
    pub fn get(&self, key: Key) -> (res: Option<&Button>)
        requires
            self.wf(),
        ensures
            match res {
                Some(button) => {
                    &&& holds_key(self@.buttons, key)
                    &&& button@ == self@.buttons[slot_of(self@.buttons, key)].1
                    &&& button.wf()
                },
                None => !holds_key(self@.buttons, key),
            },
    {
        let ghost buttons = self@.buttons;
        let mut i: usize = 0;
        while i < self.entries.len()
            invariant
                self.wf(),
                0 <= i <= self.entries@.len(),
                buttons == self@.buttons,
                buttons == entries_view(self.entries@),
                forall|j: int| 0 <= j < i ==> (#[trigger] buttons[j]).0 != key,
            decreases self.entries@.len() - i,
        {
            if self.entries[i].0 == key {
                assert(buttons[i as int].0 == key);
                return Some(&self.entries[i].1);
            }
            i += 1;
        }
        None
    }

    /// The row that the span `[lo, hi)` of `v` denotes when it is given
    /// `weight`. `v` holds the characters of `source`.
    fn from_span(source: &str, v: &Vec<char>, lo: usize, hi: usize, weight: u32) -> (res: Result<
        Row,
        ParseError,
    >)
        requires
            v@ == source@,
            lo <= hi <= v@.len(),
        ensures
            match res {
                Ok(row) => row.wf() && parse_row(v@.subrange(lo as int, hi as int), weight as nat)
                    == Ok::<RowModel, ParseErrorView>(row@),
                Err(e) => parse_row(v@.subrange(lo as int, hi as int), weight as nat) == Err::<
                    RowModel,
                    ParseErrorView,
                >(e@),
            },
    {
        let ghost all = lines(v@.subrange(lo as int, hi as int));
        let spans = line_spans(v, lo, hi);
        let mut entries: Vec<(Key, Button)> = Vec::new();
        let mut col: usize = 0;
        let mut k: usize = 0;
        assert(entries_view(entries@) == Seq::<(Key, ButtonModel)>::empty());
        while k < spans.len()
            invariant
                v@ == source@,
                lo <= hi <= v@.len(),
                all == lines(v@.subrange(lo as int, hi as int)),
                spans_are(v@, lo as int, hi as int, spans@, all),
                0 <= k <= spans@.len(),
                buttons_of_lines(all.take(k as int)) == Ok::<Seq<(Key, ButtonModel)>, ParseErrorView>(
                    entries_view(entries@),
                ),
                col == count_filled(all.take(k as int)),
                col <= k,
                forall|i: int| 0 <= i < entries@.len() ==> (#[trigger] entries@[i]).1.wf(),
            decreases spans@.len() - k,
        {
            let (a, b) = spans[k];
            proof {
                assert(all.take(k + 1).drop_last() == all.take(k as int));
                lemma_buttons_in_order(all.take(k as int));
            }
            if a < b {
                match button_from_span(source, v, a, b) {
                    Err(e) => {
                        proof {
                            lemma_line_error_stays(all, k + 1);
                        }
                        return Err(e);
                    },
                    Ok((key, finger)) => {
                        place(&mut entries, key, Button { idx: col, finger });
                        col += 1;
                    },
                }
            }
            k += 1;
        }
        proof {
            assert(all.take(k as int) == all);
            lemma_buttons_in_order(all);
        }
        Ok(Row { entries, weight })
    }

    /// Builds the row that `row` describes and gives it `weight`, in tenths.
    ///
    /// Each non-empty line of `row` stands for a button, in the column that
    /// counts the non-empty lines before it. The first line that stands for
    /// none makes the error, which holds the literal or label at fault.
    pub fn from_layout(row: &str, weight: u32) -> (res: Result<Row, ParseError>)
        ensures
            match res {
                Ok(r) => r.wf() && parse_row(row@, weight as nat) == Ok::<RowModel, ParseErrorView>(
                    r@,
                ),
                Err(e) => parse_row(row@, weight as nat) == Err::<RowModel, ParseErrorView>(e@),
            },
    {
        let v = chars_of(row);
        assert(v@.subrange(0, v@.len() as int) == row@);
        Row::from_span(row, &v, 0, v.len(), weight)
    }
}

/// The weight, in tenths, of the row at place `i` from the top.
pub fn row_weight(i: usize) -> (w: u32)
    ensures
        w == top_down_weight(i as int),
{
    if i == 0 {
        10
    } else if i == 1 {
        3
    } else if i == 2 {
        0
    } else if i == 3 {
        5
    } else {
        7
    }
}

/// The models of the rows of a keyboard.
pub open spec fn rows_view(rows: Seq<Row>) -> Seq<RowModel> {
    rows.map_values(|row: Row| row@)
}

/// A keyboard: its rows from top to bottom.
#[derive(Debug)]
pub struct Keyboard {
    rows: Vec<Row>,
}

impl View for Keyboard {
    type V = Seq<RowModel>;

    closed spec fn view(&self) -> Seq<RowModel> {
        rows_view(self.rows@)
    }
}

impl Keyboard {
    /// The keyboard has at most five rows, each well formed and with the
    /// weight of its place.
    pub closed spec fn wf(&self) -> bool {
        &&& keyboard_valid(self@)
        &&& forall|r: int| 0 <= r < self.rows@.len() ==> (#[trigger] self.rows@[r]).wf()
    }

    /// A well-formed keyboard is a valid one.
    pub proof fn lemma_wf_is_valid(&self)
        requires
            self.wf(),
        ensures
            keyboard_valid(self@),
    {
    }

    /// Builds the keyboard that `s` describes.
    ///
    /// `s` holds one block for each row, from the top, with `::` between
    /// them; a sixth block and what follows it are not read. The first line
    /// that stands for no button makes the error, which holds the literal or
    /// label at fault; no keyboard is built then.
    pub fn from_layout(s: &str) -> (res: Result<Keyboard, ParseError>)
        ensures
            match res {
                Ok(kb) => kb.wf() && parse_layout(s@) == Ok::<Seq<RowModel>, ParseErrorView>(kb@),
                Err(e) => parse_layout(s@) == Err::<Seq<RowModel>, ParseErrorView>(e@),
            },
    {
        let v = chars_of(s);
        let spans = block_spans(&v);
        let ghost all = blocks(s@);
        let ghost used = row_blocks(s@);
        let mut rows: Vec<Row> = Vec::new();
        let mut i: usize = 0;
        assert(rows_view(rows@) == Seq::<RowModel>::empty());
        while i < spans.len() && i < 5
            invariant
                v@ == s@,
                all == blocks(s@),
                used == row_blocks(s@),
                spans_are(v@, 0, v@.len() as int, spans@, all),
                0 <= i <= used.len(),
                i <= 5,
                rows@.len() == i,
                rows_of_blocks(used.take(i as int)) == Ok::<Seq<RowModel>, ParseErrorView>(
                    rows_view(rows@),
                ),
                forall|r: int| 0 <= r < rows@.len() ==> (#[trigger] rows@[r]).wf(),
            decreases spans@.len() - i,
        {
            let (a, b) = spans[i];
            proof {
                assert(used.take(i + 1).drop_last() == used.take(i as int));
            }
            match Row::from_span(s, &v, a, b, row_weight(i)) {
                Err(e) => {
                    proof {
                        lemma_block_error_stays(used, i + 1);
                    }
                    return Err(e);
                },
                Ok(row) => {
                    assert(rows_view(rows@.push(row)) == rows_view(rows@).push(row@));
                    rows.push(row);
                },
            }
            i += 1;
        }
        proof {
            assert(used.take(i as int) == used);
            lemma_rows_of_blocks(used);
        }
        let kb = Keyboard { rows };
        proof {
            assert forall|r: int| 0 <= r < kb@.len() implies row_valid(#[trigger] kb@[r])
                && kb@[r].weight == top_down_weight(r) by {}
        }
        Ok(kb)
    }

    /// The rows of the keyboard, from top to bottom.
    pub fn rows(&self) -> (rows: &Vec<Row>)
        ensures
            rows@.len() == self@.len(),
            forall|r: int| 0 <= r < rows@.len() ==> (#[trigger] rows@[r])@ == self@[r],
            self.wf() ==> forall|r: int| 0 <= r < rows@.len() ==> (#[trigger] rows@[r]).wf(),
    {
        &self.rows
    }

    /// Whether any button of the keyboard has a finger.
    pub fn has_assigned_finger(&self) -> (res: bool)
        ensures
            res == has_finger(self@),
    {
        let ghost kb = self@;
        let mut r: usize = 0;
        while r < self.rows.len()
            invariant
                kb == self@,
                0 <= r <= self.rows@.len(),
                forall|r2: int, j2: int| #[trigger] finger_at(kb, r2, j2) ==> r2 >= r,
            decreases self.rows@.len() - r,
        {
            let row = &self.rows[r];
            let mut j: usize = 0;
            while j < row.entries.len()
                invariant
                    kb == self@,
                    0 <= r < self.rows@.len(),
                    row == self.rows@[r as int],
                    0 <= j <= row.entries@.len(),
                    forall|r2: int, j2: int| #[trigger]
                        finger_at(kb, r2, j2) ==> r2 > r || (r2 == r && j2 >= j),
                decreases row.entries@.len() - j,
            {
                if row.entries[j].1.finger.is_some() {
                    assert(finger_at(kb, r as int, j as int));
                    return true;
                }
                j += 1;
            }
            r += 1;
        }
        false
    }

    /// Whether any row of the keyboard has a button for `key`.
    pub fn has_key(&self, key: Key) -> (res: bool)
        requires
            self.wf(),
        ensures
            res == on_keyboard(self@, key),
    {
        let ghost kb = self@;
        let mut r: usize = 0;
        while r < self.rows.len()
            invariant
                self.wf(),
                kb == self@,
                0 <= r <= self.rows@.len(),
                forall|r2: int| 0 <= r2 < r ==> !holds_key((#[trigger] kb[r2]).buttons, key),
            decreases self.rows@.len() - r,
        {
            if self.rows[r].get(key).is_some() {
                assert(holds_key(kb[r as int].buttons, key));
                return true;
            }
            r += 1;
        }
        false
    }

    /// Finds the button that `btn` borrows: of the buttons with a finger,
    /// gone through row by row from the top, the first among those that are
    /// fewest columns away from the column of `btn`. With it comes the
    /// distance to it in tenths, as seen from row `row_idx`: ten for each
    /// column between the two, and the weight of that row.
    pub fn find_closest_finger(&self, btn: &Button, row_idx: usize) -> (res: (&Button, u128))
        requires
            self.wf(),
            has_finger(self@),
            row_idx < self@.len(),
        ensures
            res.0.wf(),
            res.0@.finger is Some,
            res.0@ == nearest(self@, btn.idx as nat),
            exists|r: int, j: int|
                is_nearest(self@, btn.idx as nat, r, j) && button_at(self@, r, j) == res.0@,
            res.1 == 10 * gap(res.0.idx as nat, btn.idx as nat) + self@[row_idx as int].weight,
            res.1 == distance(self@, row_idx as int, btn.idx as nat),
    {
        let ghost kb = self@;
        let col = btn.idx;
        let mut found = false;
        let mut best_row: usize = 0;
        let mut best_place: usize = 0;
        let mut best_gap: usize = 0;
        let mut r: usize = 0;
        while r < self.rows.len()
            invariant
                kb == self@,
                0 <= r <= self.rows@.len(),
                leads(kb, col as nat, r as int, 0, found, best_row as int, best_place as int, best_gap as nat),
            decreases self.rows@.len() - r,
        {
            let row = &self.rows[r];
            let mut j: usize = 0;
            while j < row.entries.len()
                invariant
                    kb == self@,
                    0 <= r < self.rows@.len(),
                    row == self.rows@[r as int],
                    0 <= j <= row.entries@.len(),
                    leads(
                        kb,
                        col as nat,
                        r as int,
                        j as int,
                        found,
                        best_row as int,
                        best_place as int,
                        best_gap as nat,
                    ),
                decreases row.entries@.len() - j,
            {
                let candidate = &row.entries[j].1;
                if candidate.finger.is_some() {
                    let g = if candidate.idx >= col {
                        candidate.idx - col
                    } else {
                        col - candidate.idx
                    };
                    if !found || g < best_gap {
                        found = true;
                        best_row = r;
                        best_place = j;
                        best_gap = g;
                    }
                }
                j += 1;
            }
            r += 1;
        }
        proof {
            let (r0, j0) = choose|r0: int, j0: int| finger_at(kb, r0, j0);
            lemma_nearest_is(kb, col as nat, best_row as int, best_place as int);
        }
        let closest = &self.rows[best_row].entries[best_place].1;
        let dist: u128 = 10 * (best_gap as u128) + (self.rows[row_idx].weight as u128);
        (closest, dist)
    }
}

/// `a + b`, or the largest `u128` where the sum is larger.
fn add_capped(a: u128, b: u128) -> (sum: u128)
    ensures
        sum == capped((a + b) as nat),
{
    if b > u128::MAX - a {
        u128::MAX
    } else {
        a + b
    }
}

impl Keyboard {
    /// Adds to `total` what the keyboard charges for `key`, capped.
    fn charge(&self, key: Key, total: u128, Ghost(sum): Ghost<nat>) -> (res: u128)
        requires
            self.wf(),
            total == capped(sum),
            has_finger(self@) || !on_keyboard(self@, key),
        ensures
            res == capped(sum + key_effort(self@, key)),
    {
        let ghost kb = self@;
        let mut total = total;
        let mut r: usize = 0;
        while r < self.rows.len()
            invariant
                self.wf(),
                kb == self@,
                has_finger(kb) || !on_keyboard(kb, key),
                0 <= r <= self.rows@.len(),
                total == capped(sum + key_effort_upto(kb, key, r as int)),
            decreases self.rows@.len() - r,
        {
            let row = &self.rows[r];
            let ghost before = sum + key_effort_upto(kb, key, r as int);
            match row.get(key) {
                Some(button) => {
                    if button.finger.is_none() {
                        assert(on_keyboard(kb, key)) by {
                            assert(holds_key(kb[r as int].buttons, key));
                        }
                        let (closest, dist) = self.find_closest_finger(button, r);
                        let weight = match &closest.finger {
                            Some(finger) => finger.weight,
                            None => 0,
                        };
                        let factor: u128 = row.weight as u128 + weight as u128;
                        assert(dist * factor <= (10 * 0xffff_ffff_ffff_ffff + 10) * 20)
                            by (nonlinear_arith)
                            requires
                                0 <= dist <= 10 * 0xffff_ffff_ffff_ffff + 10,
                                0 <= factor <= 20,
                        ;
                        let effort: u128 = dist * factor;
                        proof {
                            lemma_capped_sum(before, effort as nat);
                        }
                        total = add_capped(total, effort);
                    }
                },
                None => {},
            }
            r += 1;
        }
        total
    }

    /// Whether scoring `text` comes to a button of the keyboard.
    fn comes_to_button(&self, v: &Vec<char>) -> (res: bool)
        requires
            self.wf(),
        ensures
            res == reaches(self@, v@),
    {
        let ghost kb = self@;
        let mut i: usize = 0;
        while i < v.len()
            invariant
                self.wf(),
                kb == self@,
                0 <= i <= v@.len(),
                forall|j: int| 0 <= j < i ==> recognized(#[trigger] v@[j]),
                forall|j: int|
                    0 <= j < i && #[trigger] v@[j] != ' ' ==> !on_keyboard(
                        kb,
                        key_of(seq![v@[j]]).unwrap(),
                    ),
            decreases v@.len() - i,
        {
            let c = v[i];
            if c != ' ' {
                match Key::from_char(c) {
                    None => {
                        proof {
                            lemma_first_unrecognized(v@, i as int);
                        }
                        return false;
                    },
                    Some(key) => {
                        if self.has_key(key) {
                            proof {
                                lemma_first_unrecognized(v@, i + 1);
                            }
                            return true;
                        }
                    },
                }
            }
            i += 1;
        }
        proof {
            lemma_first_unrecognized(v@, i as int);
        }
        false
    }

    /// Scores the characters `v` of `text`.
    fn judge_chars(&self, text: &str, v: &Vec<char>) -> (res: Result<u128, ParseError>)
        requires
            self.wf(),
            v@ == text@,
            !stranded(self@, text@),
        ensures
            judged(self@, text@, res),
    {
        let ghost kb = self@;
        let mut total: u128 = 0;
        let mut i: usize = 0;
        while i < v.len()
            invariant
                self.wf(),
                kb == self@,
                v@ == text@,
                !stranded(kb, v@),
                0 <= i <= v@.len(),
                forall|j: int| 0 <= j < i ==> recognized(#[trigger] v@[j]),
                total == capped(text_effort(kb, v@.take(i as int))),
            decreases v@.len() - i,
        {
            let c = v[i];
            proof {
                assert(v@.take(i + 1) == v@.take(i as int).push(c));
                lemma_effort_of_push(kb, v@.take(i as int), c);
            }
            if c != ' ' {
                match Key::from_char(c) {
                    None => {
                        proof {
                            lemma_first_unrecognized(v@, i as int);
                            assert(v@.subrange(i as int, i + 1) == seq![c]);
                        }
                        return Err(ParseError::key_literal(text, i, i + 1));
                    },
                    Some(key) => {
                        proof {
                            lemma_first_unrecognized(v@, i + 1);
                        }
                        total = self.charge(key, total, Ghost(text_effort(kb, v@.take(i as int))));
                    },
                }
            }
            i += 1;
        }
        proof {
            lemma_first_unrecognized(v@, i as int);
        }
        Ok(total)
    }

    /// Scores `text`: the effort of typing it on this keyboard, in
    /// hundredths, and capped at the largest `u128`.
    ///
    /// The characters are read one by one. A space is passed over; any other
    /// character has to name a key, and the first that names none makes the
    /// error, which holds it. Each row that has the key on a button without
    /// finger charges for it; see [`row_effort`].
    ///
    /// A keyboard without any finger scores only the texts that come to none
    /// of its buttons; [`Keyboard::try_judge`] tells them from the others.
    pub fn judge(&self, text: &str) -> (res: Result<u128, ParseError>)
        requires
            self.wf(),
            !stranded(self@, text@),
        ensures
            judged(self@, text@, res),
    {
        let v = chars_of(text);
        self.judge_chars(text, &v)
    }

    /// Scores `text` as [`Keyboard::judge`] does, where it can be scored:
    /// `None` says that scoring comes to a button and no button of the
    /// keyboard has a finger.
    pub fn try_judge(&self, text: &str) -> (res: Option<Result<u128, ParseError>>)
        requires
            self.wf(),
        ensures
            res is None <==> stranded(self@, text@),
            res matches Some(outcome) ==> judged(self@, text@, outcome),
    {
        let v = chars_of(text);
        if !self.has_assigned_finger() && self.comes_to_button(&v) {
            None
        } else {
            Some(self.judge_chars(text, &v))
        }
    }
}

/// What scoring `text` on the keyboard `kb` gives: the capped effort where
/// every character is read, and else the first character that is not.
pub open spec fn judged(kb: Seq<RowModel>, text: Seq<char>, res: Result<u128, ParseError>) -> bool {
    match res {
        Ok(score) => {
            &&& first_unrecognized(text) == text.len()
            &&& score == capped(text_effort(kb, text))
        },
        Err(e) => {
            &&& first_unrecognized(text) < text.len()
            &&& e@ == ParseErrorView::UnrecognizedKeyLiteral(
                seq![text[first_unrecognized(text) as int]],
            )
        },
    }
}

/// Parsing is deterministic: two keyboards built from one layout are the
/// same model, and they score a text alike.
pub proof fn lemma_same_layout_same_score(
    layout: Seq<char>,
    kb1: Keyboard,
    kb2: Keyboard,
    text: Seq<char>,
    res1: Result<u128, ParseError>,
    res2: Result<u128, ParseError>,
)
    requires
        parse_layout(layout) == Ok::<Seq<RowModel>, ParseErrorView>(kb1@),
        parse_layout(layout) == Ok::<Seq<RowModel>, ParseErrorView>(kb2@),
        judged(kb1@, text, res1),
        judged(kb2@, text, res2),
    ensures
        kb1@ == kb2@,
        stranded(kb1@, text) == stranded(kb2@, text),
        res1 is Ok <==> res2 is Ok,
        res1 is Ok ==> res1->Ok_0 == res2->Ok_0,
        res1 is Err ==> res1->Err_0@ == res2->Err_0@,
{
}

} // verus!
