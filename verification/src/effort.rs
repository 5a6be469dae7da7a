//! The effort of typing a text on a keyboard.
//!
//! A character costs nothing where its key has a finger of its own. Where it
//! has none, the key borrows the nearest button that has a finger, and the
//! cost grows with the way to that button, with the weight of the row and
//! with the weight of the finger. Weights and distances are counted in
//! tenths, efforts in hundredths.

use crate::keys::{key_of, Key};
use crate::layout::{holds_key, slot_of, ButtonModel, RowModel};
use vstd::prelude::*;

verus! {

/// The number of columns between two columns.
pub open spec fn gap(a: nat, b: nat) -> nat {
    if a >= b {
        (a - b) as nat
    } else {
        (b - a) as nat
    }
}

/// Whether the keyboard has a button at place `j` of row `r`.
pub open spec fn on_board(kb: Seq<RowModel>, r: int, j: int) -> bool {
    0 <= r < kb.len() && 0 <= j < kb[r].buttons.len()
}

/// The button at place `j` of row `r`.
pub open spec fn button_at(kb: Seq<RowModel>, r: int, j: int) -> ButtonModel {
    kb[r].buttons[j].1
}

/// Whether the keyboard has a button with a finger at place `j` of row `r`.
pub open spec fn finger_at(kb: Seq<RowModel>, r: int, j: int) -> bool {
    on_board(kb, r, j) && button_at(kb, r, j).finger is Some
}

/// Whether any button of the keyboard has a finger.
pub open spec fn has_finger(kb: Seq<RowModel>) -> bool {
    exists|r: int, j: int| finger_at(kb, r, j)
}

/// Whether any row of the keyboard has a button for `key`.
pub open spec fn on_keyboard(kb: Seq<RowModel>, key: Key) -> bool {
    exists|r: int| 0 <= r < kb.len() && holds_key((#[trigger] kb[r]).buttons, key)
}

/// The order in which the buttons of a keyboard are gone through: row by
/// row from the top, each row from its first button.
pub open spec fn comes_before(r1: int, j1: int, r2: int, j2: int) -> bool {
    r1 < r2 || (r1 == r2 && j1 < j2)
}

/// Whether the button at place `j` of row `r` is the one that a button in
/// column `col` borrows: it has a finger, no button with a finger is fewer
/// columns away from `col`, and those gone through before it are further
/// away.
pub open spec fn is_nearest(kb: Seq<RowModel>, col: nat, r: int, j: int) -> bool {
    &&& finger_at(kb, r, j)
    &&& forall|r2: int, j2: int| #[trigger]
        finger_at(kb, r2, j2) ==> gap(button_at(kb, r, j).idx, col) <= gap(
            button_at(kb, r2, j2).idx,
            col,
        )
    &&& forall|r2: int, j2: int|
        #[trigger] finger_at(kb, r2, j2) && comes_before(r2, j2, r, j) ==> gap(
            button_at(kb, r, j).idx,
            col,
        ) < gap(button_at(kb, r2, j2).idx, col)
}

/// The button that a button in column `col` borrows, on a keyboard that has
/// a finger.
pub open spec fn nearest(kb: Seq<RowModel>, col: nat) -> ButtonModel {
    let (r, j) = choose|r: int, j: int| is_nearest(kb, col, r, j);
    button_at(kb, r, j)
}

/// The distance, in tenths, from column `col` of row `r` to the button it
/// borrows: ten for each column between them, and the weight of the row.
pub open spec fn distance(kb: Seq<RowModel>, r: int, col: nat) -> nat {
    10 * gap(nearest(kb, col).idx, col) + kb[r].weight
}

/// The weight, in tenths, of the finger of `button`.
pub open spec fn finger_weight(button: ButtonModel) -> nat {
    match button.finger {
        Some(kind) => kind.weight(),
        None => 0,
    }
}

/// What row `r` charges for `key`, in hundredths: nothing where the row has
/// no button for the key or the button has a finger; else the distance to
/// the borrowed button times the sum of the row's weight and the weight of
/// the borrowed finger.
pub open spec fn row_effort(kb: Seq<RowModel>, r: int, key: Key) -> nat {
    let buttons = kb[r].buttons;
    if !holds_key(buttons, key) {
        0
    } else {
        let button = buttons[slot_of(buttons, key)].1;
        if button.finger is Some {
            0
        } else {
            distance(kb, r, button.idx) * (kb[r].weight + finger_weight(nearest(kb, button.idx)))
        }
    }
}

/// What the first `n` rows charge for `key`.
pub open spec fn key_effort_upto(kb: Seq<RowModel>, key: Key, n: int) -> nat
    decreases n,
{
    if n <= 0 {
        0
    } else {
        key_effort_upto(kb, key, n - 1) + row_effort(kb, n - 1, key)
    }
}

/// What the keyboard charges for `key`: each row that has the key charges.
pub open spec fn key_effort(kb: Seq<RowModel>, key: Key) -> nat {
    key_effort_upto(kb, key, kb.len() as int)
}

/// Whether scoring reads `c`: it is a space, or it names a key.
pub open spec fn recognized(c: char) -> bool {
    c == ' ' || key_of(seq![c]) is Some
}

/// What the keyboard charges for the character `c`. A space costs nothing.
pub open spec fn char_effort(kb: Seq<RowModel>, c: char) -> nat {
    if c == ' ' {
        0
    } else {
        match key_of(seq![c]) {
            Some(key) => key_effort(kb, key),
            None => 0,
        }
    }
}

/// The effort of `text` on the keyboard, in hundredths: the sum of what its
/// characters cost.
pub open spec fn text_effort(kb: Seq<RowModel>, text: Seq<char>) -> nat {
    text.fold_left(0nat, |sum: nat, c: char| sum + char_effort(kb, c))
}

/// The position of the first character of `text` that scoring cannot read,
/// or `text.len()` if it reads them all.
pub open spec fn first_unrecognized(text: Seq<char>) -> nat
    decreases text.len(),
{
    if text.len() == 0 || !recognized(text[0]) {
        0
    } else {
        1 + first_unrecognized(text.drop_first())
    }
}

/// Whether scoring `text` comes to a button of the keyboard: a character
/// before the first unreadable one names a key that the keyboard has.
pub open spec fn reaches(kb: Seq<RowModel>, text: Seq<char>) -> bool {
    exists|i: int|
        0 <= i < first_unrecognized(text) && #[trigger] text[i] != ' ' && key_of(seq![text[i]])
            is Some && on_keyboard(kb, key_of(seq![text[i]]).unwrap())
}

/// Whether `text` cannot be scored on the keyboard: scoring comes to a
/// button, and no button has a finger to borrow.
pub open spec fn stranded(kb: Seq<RowModel>, text: Seq<char>) -> bool {
    !has_finger(kb) && reaches(kb, text)
}

/// `n`, or the largest `u128` where `n` is larger.
pub open spec fn capped(n: nat) -> u128 {
    if n <= u128::MAX {
        n as u128
    } else {
        u128::MAX
    }
}

/// Whether, of the buttons with a finger that are gone through before place
/// `j` of row `r`, the one at place `bj` of row `br` is the first among
/// those fewest columns away from `col`, at `best` columns; `found` says
/// whether there is any such button.
pub open spec fn leads(
    kb: Seq<RowModel>,
    col: nat,
    r: int,
    j: int,
    found: bool,
    br: int,
    bj: int,
    best: nat,
) -> bool {
    &&& !found ==> forall|r2: int, j2: int| #[trigger]
        finger_at(kb, r2, j2) ==> !comes_before(r2, j2, r, j)
    &&& found ==> {
        &&& finger_at(kb, br, bj)
        &&& comes_before(br, bj, r, j)
        &&& best == gap(button_at(kb, br, bj).idx, col)
        &&& forall|r2: int, j2: int|
            #[trigger] finger_at(kb, r2, j2) && comes_before(r2, j2, r, j) ==> {
                &&& best <= gap(button_at(kb, r2, j2).idx, col)
                &&& comes_before(r2, j2, br, bj) ==> best < gap(button_at(kb, r2, j2).idx, col)
            }
    }
}

/// Going through the buttons up to place `j` of row `r` finds the leading
/// button among them, if any of them has a finger.
proof fn lemma_leader(kb: Seq<RowModel>, col: nat, r: int, j: int) -> (res: (bool, int, int))
    requires
        0 <= r <= kb.len(),
        0 <= j,
        r < kb.len() ==> j <= kb[r].buttons.len(),
        r == kb.len() ==> j == 0,
    ensures
        leads(kb, col, r, j, res.0, res.1, res.2, gap(button_at(kb, res.1, res.2).idx, col)),
    decreases r, j,
{
    if j > 0 {
        let before = lemma_leader(kb, col, r, j - 1);
        let here = gap(button_at(kb, r, j - 1).idx, col);
        let res = if finger_at(kb, r, j - 1) && (!before.0 || here < gap(
            button_at(kb, before.1, before.2).idx,
            col,
        )) {
            (true, r, j - 1)
        } else {
            before
        };
        assert forall|r2: int, j2: int| comes_before(r2, j2, r, j) implies comes_before(
            r2,
            j2,
            r,
            j - 1,
        ) || (r2 == r && j2 == j - 1) by {}
        res
    } else if r > 0 {
        let before = lemma_leader(kb, col, r - 1, kb[r - 1].buttons.len() as int);
        assert forall|r2: int, j2: int| #[trigger]
            finger_at(kb, r2, j2) && comes_before(r2, j2, r, 0) implies comes_before(
            r2,
            j2,
            r - 1,
            kb[r - 1].buttons.len() as int,
        ) by {}
        before
    } else {
        (false, 0, 0)
    }
}

/// On a keyboard that has a finger, every column borrows a button, and the
/// borrowed button has a finger.
pub proof fn lemma_nearest_exists(kb: Seq<RowModel>, col: nat)
    requires
        has_finger(kb),
    ensures
        exists|r: int, j: int| is_nearest(kb, col, r, j),
        nearest(kb, col).finger is Some,
{
    let (found, r, j) = lemma_leader(kb, col, kb.len() as int, 0);
    let (r0, j0) = choose|r0: int, j0: int| finger_at(kb, r0, j0);
    lemma_nearest_is(kb, col, r, j);
}

/// At most one button is the one that a column borrows.
pub proof fn lemma_nearest_is_unique(kb: Seq<RowModel>, col: nat, r1: int, j1: int, r2: int, j2: int)
    requires
        is_nearest(kb, col, r1, j1),
        is_nearest(kb, col, r2, j2),
    ensures
        r1 == r2,
        j1 == j2,
{
}

/// The borrowed button is the first of those with a finger that are fewest
/// columns away.
pub proof fn lemma_nearest_is(kb: Seq<RowModel>, col: nat, r: int, j: int)
    requires
        is_nearest(kb, col, r, j),
    ensures
        nearest(kb, col) == button_at(kb, r, j),
{
    let (r2, j2) = choose|r2: int, j2: int| is_nearest(kb, col, r2, j2);
    lemma_nearest_is_unique(kb, col, r, j, r2, j2);
}

/// Scoring reads `text` up to its first character that is neither a space
/// nor the name of a key.
pub proof fn lemma_first_unrecognized(text: Seq<char>, n: int)
    requires
        0 <= n <= text.len(),
        forall|i: int| 0 <= i < n ==> recognized(#[trigger] text[i]),
    ensures
        n <= first_unrecognized(text) <= text.len(),
        n < text.len() && !recognized(text[n]) ==> first_unrecognized(text) == n,
    decreases text.len(),
{
    if text.len() > 0 && recognized(text[0]) {
        let rest = text.drop_first();
        if n > 0 {
            assert forall|i: int| 0 <= i < n - 1 implies recognized(#[trigger] rest[i]) by {}
            lemma_first_unrecognized(rest, n - 1);
        } else {
            lemma_first_unrecognized(rest, 0);
        }
    }
}

/// A text with one more character costs what the character costs more.
pub proof fn lemma_effort_of_push(kb: Seq<RowModel>, text: Seq<char>, c: char)
    ensures
        text_effort(kb, text.push(c)) == text_effort(kb, text) + char_effort(kb, c),
{
    assert(text.push(c).drop_last() == text);
}

/// Capping a sum can wait until the last term is added.
pub proof fn lemma_capped_sum(sum: nat, more: nat)
    ensures
        capped(capped(sum) as nat + more) == capped(sum + more),
{
}

/// Whether every button of `key` has a finger of its own.
pub open spec fn directly_reachable(kb: Seq<RowModel>, key: Key) -> bool {
    forall|r: int|
        0 <= r < kb.len() && holds_key((#[trigger] kb[r]).buttons, key) ==> kb[r].buttons[slot_of(
            kb[r].buttons,
            key,
        )].1.finger is Some
}

/// A button with a finger of its own charges nothing, and so does a row
/// without the key.
pub proof fn lemma_own_finger_costs_nothing(kb: Seq<RowModel>, r: int, key: Key)
    requires
        !holds_key(kb[r].buttons, key) || kb[r].buttons[slot_of(kb[r].buttons, key)].1.finger
            is Some,
    ensures
        row_effort(kb, r, key) == 0,
{
}

/// A key whose buttons all have fingers of their own costs nothing.
pub proof fn lemma_directly_reachable_costs_nothing(kb: Seq<RowModel>, key: Key)
    requires
        directly_reachable(kb, key),
    ensures
        key_effort(kb, key) == 0,
{
    lemma_reachable_rows_cost_nothing(kb, key, kb.len() as int);
}

proof fn lemma_reachable_rows_cost_nothing(kb: Seq<RowModel>, key: Key, n: int)
    requires
        directly_reachable(kb, key),
        0 <= n <= kb.len(),
    ensures
        key_effort_upto(kb, key, n) == 0,
    decreases n,
{
    if n > 0 {
        lemma_reachable_rows_cost_nothing(kb, key, n - 1);
    }
}

/// A text whose characters each cost nothing costs nothing.
pub proof fn lemma_free_characters_cost_nothing(kb: Seq<RowModel>, text: Seq<char>)
    requires
        forall|i: int| 0 <= i < text.len() ==> char_effort(kb, #[trigger] text[i]) == 0,
    ensures
        text_effort(kb, text) == 0,
    decreases text.len(),
{
    if text.len() > 0 {
        let front = text.drop_last();
        assert forall|i: int| 0 <= i < front.len() implies char_effort(kb, #[trigger] front[i])
            == 0 by {}
        lemma_free_characters_cost_nothing(kb, front);
        lemma_effort_of_push(kb, front, text.last());
    }
}

/// A text that only names keys with fingers of their own costs nothing:
/// direct reach is never charged.
pub proof fn lemma_direct_reach_costs_nothing(kb: Seq<RowModel>, text: Seq<char>)
    requires
        forall|i: int|
            0 <= i < text.len() ==> (key_of(seq![#[trigger] text[i]]) matches Some(key)
                ==> directly_reachable(kb, key)),
    ensures
        text_effort(kb, text) == 0,
{
    assert forall|i: int| 0 <= i < text.len() implies char_effort(kb, #[trigger] text[i])
        == 0 by {
        if let Some(key) = key_of(seq![text[i]]) {
            lemma_directly_reachable_costs_nothing(kb, key);
        }
    }
    lemma_free_characters_cost_nothing(kb, text);
}

/// A text of spaces, and the empty text, is read to its end and costs
/// nothing on any keyboard, and it comes to no button.
pub proof fn lemma_spaces_cost_nothing(kb: Seq<RowModel>, text: Seq<char>)
    requires
        forall|i: int| 0 <= i < text.len() ==> #[trigger] text[i] == ' ',
    ensures
        text_effort(kb, text) == 0,
        first_unrecognized(text) == text.len(),
        !stranded(kb, text),
{
    lemma_free_characters_cost_nothing(kb, text);
    lemma_first_unrecognized(text, text.len() as int);
}

/// On a keyboard without any finger, a text cannot be scored once a
/// character that is read names a key of the keyboard.
pub proof fn lemma_no_finger_strands(kb: Seq<RowModel>, text: Seq<char>, i: int)
    requires
        !has_finger(kb),
        0 <= i < text.len(),
        forall|j: int| 0 <= j <= i ==> recognized(#[trigger] text[j]),
        text[i] != ' ',
        on_keyboard(kb, key_of(seq![text[i]]).unwrap()),
    ensures
        stranded(kb, text),
{
    lemma_first_unrecognized(text, i + 1);
}

/// The effort of two texts, one after the other, is the sum of their
/// efforts.
pub proof fn lemma_effort_of_concat(kb: Seq<RowModel>, a: Seq<char>, b: Seq<char>)
    ensures
        text_effort(kb, a + b) == text_effort(kb, a) + text_effort(kb, b),
    decreases b.len(),
{
    if b.len() > 0 {
        let front = b.drop_last();
        lemma_effort_of_concat(kb, a, front);
        assert(b == front.push(b.last()));
        lemma_effort_of_push(kb, a + front, b.last());
        lemma_effort_of_push(kb, front, b.last());
    }
}

/// Scoring reads a text to its end exactly when it reads every character.
pub proof fn lemma_read_to_end(text: Seq<char>)
    ensures
        first_unrecognized(text) == text.len() <==> forall|i: int|
            0 <= i < text.len() ==> recognized(#[trigger] text[i]),
    decreases text.len(),
{
    if text.len() > 0 {
        let rest = text.drop_first();
        lemma_read_to_end(rest);
        if recognized(text[0]) {
            if first_unrecognized(rest) == rest.len() {
                assert forall|i: int| 0 <= i < text.len() implies recognized(
                    #[trigger] text[i],
                ) by {
                    if i > 0 {
                        assert(text[i] == rest[i - 1]);
                    }
                }
            }
        }
    }
}

/// The effort of a text does not depend on the order of its characters,
/// and neither does whether scoring reads it to its end.
pub proof fn lemma_effort_of_permutation(kb: Seq<RowModel>, a: Seq<char>, b: Seq<char>)
    requires
        a.to_multiset() == b.to_multiset(),
    ensures
        text_effort(kb, a) == text_effort(kb, b),
        first_unrecognized(a) == a.len() <==> first_unrecognized(b) == b.len(),
{
    let add = |sum: nat, c: char| sum + char_effort(kb, c);
    vstd::seq_lib::lemma_fold_left_permutation(a, b, add, 0nat);
    lemma_read_to_end(a);
    lemma_read_to_end(b);
    assert forall|i: int| 0 <= i < a.len() implies b.contains(#[trigger] a[i]) by {
        vstd::seq_lib::to_multiset_contains(a, a[i]);
        vstd::seq_lib::to_multiset_contains(b, a[i]);
    }
    assert forall|i: int| 0 <= i < b.len() implies a.contains(#[trigger] b[i]) by {
        vstd::seq_lib::to_multiset_contains(a, b[i]);
        vstd::seq_lib::to_multiset_contains(b, b[i]);
    }
}

} // verus!
