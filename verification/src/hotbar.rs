//! Which hotbar slot is selected.

use vstd::prelude::*;

verus! {

/// The slot selected after the mouse wheel turned by `step`: up (positive)
/// selects the previous slot, down (negative) the next one, wrapping around;
/// no turn keeps the selection.
pub fn scroll_selection(selected: usize, slots: usize, step: i8) -> (r: usize)
    requires
        slots > 0,
        selected + slots <= usize::MAX,
    ensures
        r == if step == 0 {
            selected as int
        } else if step > 0 {
            (selected + slots - 1) % (slots as int)
        } else {
            (selected + 1) % (slots as int)
        },
{
    if step == 0 {
        selected
    } else if step > 0 {
        (selected + slots - 1) % slots
    } else {
        (selected + 1) % slots
    }
}

/// The slot selected after the number keys `pressed[i]` (key `i + 1` was
/// just pressed) were read in order: the last pressed key's slot, or the
/// current selection when none was pressed.
pub open spec fn keyboard_selection_spec(selected: int, pressed: Seq<bool>) -> int
    decreases pressed.len(),
{
    if pressed.len() == 0 {
        selected
    } else if pressed.last() {
        pressed.len() - 1
    } else {
        keyboard_selection_spec(selected, pressed.drop_last())
    }
}

/// Selects the slot of the last number key that was just pressed.
pub fn keyboard_selection(selected: usize, pressed: &Vec<bool>) -> (r: usize)
    ensures
        r == keyboard_selection_spec(selected as int, pressed@),
{
    let mut sel = selected;
    let mut i: usize = 0;
    while i < pressed.len()
        invariant
            i <= pressed@.len(),
            sel == keyboard_selection_spec(selected as int, pressed@.take(i as int)),
        decreases pressed@.len() - i,
    {
        assert(pressed@.take(i as int + 1).drop_last() =~= pressed@.take(i as int));
        if pressed[i] {
            sel = i;
        }
        i = i + 1;
    }
    assert(pressed@.take(pressed@.len() as int) =~= pressed@);
    sel
}

} // verus!
