//! The layout description and the keyboard that it denotes.
//!
//! A description is made of blocks separated by `::`, one block for each row
//! of the keyboard from top to bottom. Each non-empty line of a block stands
//! for one button: a bare key literal for a button without a finger, or
//! `key:finger` for a button with one. This module says, on sequences of
//! characters, which keyboard a description denotes or why it denotes none.

use crate::error::ParseErrorView;
use crate::kb::{finger_kind_of, FingerKind};
use crate::keys::{key_of, Key};
use crate::text::{blocks, lines, position, trim};
use vstd::prelude::*;

verus! {

/// A button: its column in the row, and the finger assigned to it, if any.
pub struct ButtonModel {
    pub idx: nat,
    pub finger: Option<FingerKind>,
}

/// A row: its buttons by key, in the order of their columns, and the weight
/// of the row in tenths.
pub struct RowModel {
    pub buttons: Seq<(Key, ButtonModel)>,
    pub weight: nat,
}

/// The number of rows that a keyboard can have.
pub open spec fn max_rows() -> nat {
    5
}

/// The weight, in tenths, of the row at place `i` from the top.
pub open spec fn top_down_weight(i: int) -> nat {
    if i == 0 {
        10
    } else if i == 1 {
        3
    } else if i == 2 {
        0
    } else if i == 3 {
        5
    } else {
        7
    }
}

/// Whether `buttons` has a button for `key`.
pub open spec fn holds_key(buttons: Seq<(Key, ButtonModel)>, key: Key) -> bool {
    exists|i: int| 0 <= i < buttons.len() && (#[trigger] buttons[i]).0 == key
}

/// A place of `key` in `buttons`, where it has one.
pub open spec fn slot_of(buttons: Seq<(Key, ButtonModel)>, key: Key) -> int {
    choose|i: int| 0 <= i < buttons.len() && (#[trigger] buttons[i]).0 == key
}

/// `buttons` with `button` as the button of `key`: it comes last, and an
/// earlier button of that key is gone.
pub open spec fn assign(buttons: Seq<(Key, ButtonModel)>, key: Key, button: ButtonModel) -> Seq<
    (Key, ButtonModel),
> {
    if holds_key(buttons, key) {
        buttons.remove(slot_of(buttons, key)).push((key, button))
    } else {
        buttons.push((key, button))
    }
}

/// No key has two buttons.
pub open spec fn distinct_keys(buttons: Seq<(Key, ButtonModel)>) -> bool {
    forall|i: int, j: int|
        0 <= i < j < buttons.len() ==> (#[trigger] buttons[i]).0 != (#[trigger] buttons[j]).0
}

/// The buttons stand in the order of their columns.
pub open spec fn ascending(buttons: Seq<(Key, ButtonModel)>) -> bool {
    forall|i: int, j: int|
        0 <= i < j < buttons.len() ==> (#[trigger] buttons[i]).1.idx < (#[trigger] buttons[j]).1.idx
}

/// Every column is less than `bound`.
pub open spec fn columns_below(buttons: Seq<(Key, ButtonModel)>, bound: nat) -> bool {
    forall|i: int| 0 <= i < buttons.len() ==> (#[trigger] buttons[i]).1.idx < bound
}

/// A row as a layout gives it: one button for each key, in column order.
pub open spec fn row_valid(row: RowModel) -> bool {
    distinct_keys(row.buttons) && ascending(row.buttons)
}

/// A keyboard as a layout gives it: at most five valid rows, each with the
/// weight of its place.
pub open spec fn keyboard_valid(kb: Seq<RowModel>) -> bool {
    &&& kb.len() <= max_rows()
    &&& forall|r: int|
        0 <= r < kb.len() ==> row_valid(#[trigger] kb[r]) && kb[r].weight == top_down_weight(r)
}

/// The key and the finger that a non-empty line stands for.
///
/// A line without colon is a key literal, blank characters around it set
/// aside. In a line with a colon, what stands before the first colon is the
/// key literal and what follows it is the finger label, both as they are.
pub open spec fn button_of_line(line: Seq<char>) -> Result<(Key, Option<FingerKind>), ParseErrorView> {
    let n = position(line, ':') as int;
    if n >= line.len() {
        match key_of(trim(line)) {
            Some(key) => Ok((key, None)),
            None => Err(ParseErrorView::UnrecognizedKeyLiteral(trim(line))),
        }
    } else {
        match key_of(line.take(n)) {
            None => Err(ParseErrorView::UnrecognizedKeyLiteral(line.take(n))),
            Some(key) => match finger_kind_of(line.skip(n + 1)) {
                None => Err(ParseErrorView::UnrecognizedFingerLabel(line.skip(n + 1))),
                Some(kind) => Ok((key, Some(kind))),
            },
        }
    }
}

/// The number of non-empty lines among `lines`.
pub open spec fn count_filled(lines: Seq<Seq<char>>) -> nat
    decreases lines.len(),
{
    if lines.len() == 0 {
        0
    } else if lines.last().len() == 0 {
        count_filled(lines.drop_last())
    } else {
        count_filled(lines.drop_last()) + 1
    }
}

/// The buttons that `lines` stand for. Empty lines are passed over; the
/// column of a button is the number of non-empty lines before its own; a
/// later line for a key replaces an earlier one. The first line that stands
/// for no button decides the error.
pub open spec fn buttons_of_lines(lines: Seq<Seq<char>>) -> Result<
    Seq<(Key, ButtonModel)>,
    ParseErrorView,
>
    decreases lines.len(),
{
    if lines.len() == 0 {
        Ok(Seq::empty())
    } else {
        match buttons_of_lines(lines.drop_last()) {
            Err(e) => Err(e),
            Ok(buttons) => if lines.last().len() == 0 {
                Ok(buttons)
            } else {
                match button_of_line(lines.last()) {
                    Err(e) => Err(e),
                    Ok((key, finger)) => Ok(
                        assign(
                            buttons,
                            key,
                            ButtonModel { idx: count_filled(lines.drop_last()), finger },
                        ),
                    ),
                }
            },
        }
    }
}

/// The row that `block` denotes when it is given `weight`.
pub open spec fn parse_row(block: Seq<char>, weight: nat) -> Result<RowModel, ParseErrorView> {
    match buttons_of_lines(lines(block)) {
        Ok(buttons) => Ok(RowModel { buttons, weight }),
        Err(e) => Err(e),
    }
}

/// The rows that `blocks` denote, the row at place `i` with the weight of
/// that place. The first block that denotes no row decides the error.
pub open spec fn rows_of_blocks(blocks: Seq<Seq<char>>) -> Result<Seq<RowModel>, ParseErrorView>
    decreases blocks.len(),
{
    if blocks.len() == 0 {
        Ok(Seq::empty())
    } else {
        match rows_of_blocks(blocks.drop_last()) {
            Err(e) => Err(e),
            Ok(rows) => match parse_row(blocks.last(), top_down_weight(blocks.len() - 1)) {
                Err(e) => Err(e),
                Ok(row) => Ok(rows.push(row)),
            },
        }
    }
}

/// The blocks of `layout` that become rows: the first five, or all of them
/// where there are fewer.
pub open spec fn row_blocks(layout: Seq<char>) -> Seq<Seq<char>> {
    let all = blocks(layout);
    if all.len() > max_rows() {
        all.take(max_rows() as int)
    } else {
        all
    }
}

/// The keyboard that `layout` denotes. Blocks after the fifth are not read.
pub open spec fn parse_layout(layout: Seq<char>) -> Result<Seq<RowModel>, ParseErrorView> {
    rows_of_blocks(row_blocks(layout))
}

/// Giving a key a button in a new last column keeps a row in order.
pub proof fn lemma_assign_keeps_order(
    buttons: Seq<(Key, ButtonModel)>,
    key: Key,
    button: ButtonModel,
)
    requires
        distinct_keys(buttons),
        ascending(buttons),
        columns_below(buttons, button.idx),
    ensures
        distinct_keys(assign(buttons, key, button)),
        ascending(assign(buttons, key, button)),
        columns_below(assign(buttons, key, button), button.idx + 1),
        holds_key(assign(buttons, key, button), key),
        assign(buttons, key, button).last() == (key, button),
{
    let after = assign(buttons, key, button);
    if holds_key(buttons, key) {
        let s = slot_of(buttons, key);
        let kept = buttons.remove(s);
        assert forall|i: int| 0 <= i < kept.len() implies (#[trigger] kept[i]).0 != key
            && kept[i].1.idx < button.idx && kept[i] == buttons[if i < s { i } else { i + 1 }] by {}
        assert(distinct_keys(kept));
        assert(ascending(kept));
    }
    assert(after[after.len() - 1].0 == key);
}

/// The buttons of a row have distinct keys, stand in the order of their
/// columns, and their columns count the non-empty lines before them.
pub proof fn lemma_buttons_in_order(lines: Seq<Seq<char>>)
    ensures
        buttons_of_lines(lines) matches Ok(buttons) ==> {
            &&& distinct_keys(buttons)
            &&& ascending(buttons)
            &&& columns_below(buttons, count_filled(lines))
        },
    decreases lines.len(),
{
    if lines.len() > 0 {
        lemma_buttons_in_order(lines.drop_last());
        if let Ok(buttons) = buttons_of_lines(lines.drop_last()) {
            if lines.last().len() > 0 {
                if let Ok((key, finger)) = button_of_line(lines.last()) {
                    lemma_assign_keeps_order(
                        buttons,
                        key,
                        ButtonModel { idx: count_filled(lines.drop_last()), finger },
                    );
                }
            }
        }
    }
}

/// Once a line has been refused, the lines after it change nothing.
pub proof fn lemma_line_error_stays(lines: Seq<Seq<char>>, n: int)
    requires
        0 <= n <= lines.len(),
        buttons_of_lines(lines.take(n)) is Err,
    ensures
        buttons_of_lines(lines) == buttons_of_lines(lines.take(n)),
    decreases lines.len() - n,
{
    if n < lines.len() {
        assert(lines.take(n + 1).drop_last() == lines.take(n));
        lemma_line_error_stays(lines, n + 1);
    } else {
        assert(lines.take(n) == lines);
    }
}

/// Once a block has been refused, the blocks after it change nothing.
pub proof fn lemma_block_error_stays(blocks: Seq<Seq<char>>, n: int)
    requires
        0 <= n <= blocks.len(),
        rows_of_blocks(blocks.take(n)) is Err,
    ensures
        rows_of_blocks(blocks) == rows_of_blocks(blocks.take(n)),
    decreases blocks.len() - n,
{
    if n < blocks.len() {
        assert(blocks.take(n + 1).drop_last() == blocks.take(n));
        lemma_block_error_stays(blocks, n + 1);
    } else {
        assert(blocks.take(n) == blocks);
    }
}

/// Rows come one for each block, valid and with the weight of their place.
pub proof fn lemma_rows_of_blocks(blocks: Seq<Seq<char>>)
    ensures
        rows_of_blocks(blocks) matches Ok(rows) ==> {
            &&& rows.len() == blocks.len()
            &&& forall|r: int|
                0 <= r < rows.len() ==> {
                    &&& row_valid(#[trigger] rows[r])
                    &&& rows[r].weight == top_down_weight(r)
                    &&& parse_row(blocks[r], top_down_weight(r)) == Ok::<RowModel, ParseErrorView>(
                        rows[r],
                    )
                }
        },
    decreases blocks.len(),
{
    if blocks.len() > 0 {
        lemma_rows_of_blocks(blocks.drop_last());
        lemma_buttons_in_order(lines(blocks.last()));
    }
}

/// A layout that denotes a keyboard denotes a valid one. It has a row for
/// each block up to the fifth, so a layout of fewer than five blocks gives
/// that many rows, and they have the first weights from the top.
pub proof fn lemma_parsed_layout_is_valid(layout: Seq<char>)
    ensures
        parse_layout(layout) matches Ok(kb) ==> {
            &&& keyboard_valid(kb)
            &&& kb.len() == row_blocks(layout).len()
            &&& blocks(layout).len() <= max_rows() ==> kb.len() == blocks(layout).len()
            &&& blocks(layout).len() > max_rows() ==> kb.len() == max_rows()
            &&& forall|r: int|
                0 <= r < kb.len() ==> parse_row(blocks(layout)[r], top_down_weight(r)) == Ok::<
                    RowModel,
                    ParseErrorView,
                >(#[trigger] kb[r])
        },
{
    lemma_rows_of_blocks(row_blocks(layout));
}

} // verus!
