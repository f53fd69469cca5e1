//! Dragging a tile: what each frame of a drag does, decided from what the pointer
//! does, and what that does to the grid order and the popped-out tiles.
use vstd::prelude::*;

use super::{
    drop_at, dropped_at, keys, layout_ok, lemma_reconciled_layout, lemma_reconciled_members,
    lemma_return_keeps_the_layout, reconciled, lemma_drop_at_places_the_tile_once, lemma_dropped_no_repeats, lemma_without,
    lemma_without_no_repeats, remove_key, without,
};

verus! {

/// What the pointer and keyboard do this frame, for a tile held out of the grid.
#[derive(Clone, Copy, Debug, PartialEq, Eq)]
pub struct DragInput {
    /// Escape was pressed.
    pub cancelled: bool,
    /// The button is still down.
    pub held: bool,
    /// The pointer is over the dashboard.
    pub over_grid: bool,
    /// The pointer is outside the main window, or where the window cannot see it.
    pub outside_window: bool,
    /// The pointer is well inside the window, past the margin that keeps a tile on
    /// the edge from flipping in and out.
    pub back_inside: bool,
}

/// What a frame of a drag does.
#[derive(Clone, Copy, Debug, PartialEq, Eq)]
pub enum DragStep {
    /// Escape: the tile goes back where it was picked up (a torn-off window closes).
    Cancel,
    /// Still held, in the grid or (`torn`) as a window of its own. `tear_off`: it
    /// just left the window and becomes a window; `dock`: as a window it just came
    /// back in, and is carried in the grid again.
    Carry { torn: bool, tear_off: bool, dock: bool },
    /// Released over the grid: into the slot under the pointer.
    Drop,
    /// Released over the top bar or the settings: back where it was picked up.
    Restore,
    /// Released outside the window: it stays a window, torn off now if it was not
    /// yet (`tear_off`).
    Settle { tear_off: bool },
}

pub open spec fn drag_step_spec(torn: bool, i: DragInput) -> DragStep {
    if i.cancelled {
        DragStep::Cancel
    } else if i.held {
        if !torn && i.outside_window {
            DragStep::Carry { torn: true, tear_off: true, dock: false }
        } else if torn && i.back_inside {
            DragStep::Carry { torn: false, tear_off: false, dock: true }
        } else {
            DragStep::Carry { torn, tear_off: false, dock: false }
        }
    } else if torn {
        DragStep::Settle { tear_off: false }
    } else if i.over_grid {
        DragStep::Drop
    } else if i.outside_window {
        DragStep::Settle { tear_off: true }
    } else {
        DragStep::Restore
    }
}

/// The next frame of a drag of a tile that is (`torn`) or is not a window of its own.
pub fn drag_step(torn: bool, input: DragInput) -> (s: DragStep)
    ensures
        s == drag_step_spec(torn, input),
{
    if input.cancelled {
        DragStep::Cancel
    } else if input.held {
        if !torn && input.outside_window {
            DragStep::Carry { torn: true, tear_off: true, dock: false }
        } else if torn && input.back_inside {
            DragStep::Carry { torn: false, tear_off: false, dock: true }
        } else {
            DragStep::Carry { torn, tear_off: false, dock: false }
        }
    } else if torn {
        DragStep::Settle { tear_off: false }
    } else if input.over_grid {
        DragStep::Drop
    } else if input.outside_window {
        DragStep::Settle { tear_off: true }
    } else {
        DragStep::Restore
    }
}

/// What a step does to the grid order and the set of popped-out tiles, for the tile
/// `key` picked up from slot `origin` and now over slot `slot`.
pub open spec fn step_effect(
    step: DragStep,
    key: Seq<char>,
    slot: int,
    origin: int,
    order: Seq<Seq<char>>,
    detached: Set<Seq<char>>,
) -> (Seq<Seq<char>>, Set<Seq<char>>) {
    match step {
        DragStep::Cancel => (dropped_at(order, key, origin), detached.remove(key)),
        DragStep::Carry { tear_off, dock, .. } => if tear_off {
            (without(order, key), detached.insert(key))
        } else if dock {
            (order, detached.remove(key))
        } else {
            (order, detached)
        },
        DragStep::Drop => (dropped_at(order, key, slot), detached),
        DragStep::Restore => (dropped_at(order, key, origin), detached),
        DragStep::Settle { tear_off } => if tear_off {
            (without(order, key), detached.insert(key))
        } else {
            (order, detached)
        },
    }
}

/// What a step does to the popped-out tiles.
#[derive(Clone, Copy, Debug, PartialEq, Eq)]
pub enum PopChange {
    /// Nothing.
    Keep,
    /// The tile becomes a window of its own.
    PopOut,
    /// The tile is no longer a window of its own.
    Dock,
}

pub open spec fn popped(change: PopChange, detached: Set<Seq<char>>, key: Seq<char>) -> Set<Seq<char>> {
    match change {
        PopChange::Keep => detached,
        PopChange::PopOut => detached.insert(key),
        PopChange::Dock => detached.remove(key),
    }
}

/// Does what `step` does to the grid order, for the tile `key` picked up from slot
/// `origin` and now over slot `slot`, and says what it does to the popped-out tiles.
pub fn apply_step(step: DragStep, order: &mut Vec<String>, key: &str, slot: usize, origin: usize) -> (c: PopChange)
    ensures
        forall|d: Set<Seq<char>>|
            #[trigger] step_effect(step, key@, slot as int, origin as int, keys(old(order)@), d) == (
            keys(final(order)@),
            popped(c, d, key@),
        ),
{
    match step {
        DragStep::Cancel => {
            drop_at(order, key, origin);
            PopChange::Dock
        },
        DragStep::Carry { tear_off, dock, .. } => {
            if tear_off {
                remove_key(order, key);
                PopChange::PopOut
            } else if dock {
                PopChange::Dock
            } else {
                PopChange::Keep
            }
        },
        DragStep::Drop => {
            drop_at(order, key, slot);
            PopChange::Keep
        },
        DragStep::Restore => {
            drop_at(order, key, origin);
            PopChange::Keep
        },
        DragStep::Settle { tear_off } => {
            if tear_off {
                remove_key(order, key);
                PopChange::PopOut
            } else {
                PopChange::Keep
            }
        },
    }
}

/// Where a held tile is: as a window of its own it is popped out and not in the
/// grid; carried in the grid it is not popped out.
pub open spec fn held_as(order: Seq<Seq<char>>, detached: Set<Seq<char>>, key: Seq<char>, torn: bool) -> bool {
    if torn {
        detached.contains(key) && !order.contains(key)
    } else {
        !detached.contains(key)
    }
}

/// In exactly one place: once in the grid order, or popped out and not in it.
pub open spec fn in_one_place(order: Seq<Seq<char>>, detached: Set<Seq<char>>, key: Seq<char>) -> bool {
    ||| (!detached.contains(key) && order.contains(key) && forall|i: int, j: int|
        0 <= i < order.len() && 0 <= j < order.len() && order[i] == key && order[j] == key ==> i == j)
    ||| (detached.contains(key) && !order.contains(key))
}

/// While a tile is held, every frame keeps it where the drag says it is; when it is
/// let go, or the drag is cancelled, it ends up in exactly one place, in the grid or
/// as a window.
pub proof fn lemma_a_dragged_tile_is_never_lost(
    torn: bool,
    input: DragInput,
    key: Seq<char>,
    slot: int,
    origin: int,
    order: Seq<Seq<char>>,
    detached: Set<Seq<char>>,
)
    requires
        held_as(order, detached, key, torn),
        0 <= slot,
        0 <= origin,
    ensures
        ({
            let step = drag_step_spec(torn, input);
            let (o, d) = step_effect(step, key, slot, origin, order, detached);
            match step {
                DragStep::Carry { torn: now, .. } => held_as(o, d, key, now),
                _ => in_one_place(o, d, key),
            }
        }),
{
    let step = drag_step_spec(torn, input);
    let (o, d) = step_effect(step, key, slot, origin, order, detached);
    lemma_without(order, key);
    match step {
        DragStep::Cancel => {
            lemma_drop_at_places_the_tile_once(order, key, origin);
        },
        DragStep::Drop => {
            lemma_drop_at_places_the_tile_once(order, key, slot);
        },
        DragStep::Restore => {
            lemma_drop_at_places_the_tile_once(order, key, origin);
        },
        _ => {},
    }
}

/// Every frame of a drag keeps the layout sound: the grid order holds each tile once,
/// and no popped-out tile is also in it.
pub proof fn lemma_a_drag_keeps_the_layout(
    torn: bool,
    input: DragInput,
    key: Seq<char>,
    slot: int,
    origin: int,
    order: Seq<Seq<char>>,
    detached: Set<Seq<char>>,
)
    requires
        layout_ok(order, detached),
        held_as(order, detached, key, torn),
        0 <= slot,
        0 <= origin,
    ensures
        ({
            let (o, d) = step_effect(drag_step_spec(torn, input), key, slot, origin, order, detached);
            layout_ok(o, d)
        }),
{
    let step = drag_step_spec(torn, input);
    let (o, d) = step_effect(step, key, slot, origin, order, detached);
    lemma_without(order, key);
    lemma_without_no_repeats(order, key);
    match step {
        DragStep::Cancel => {
            lemma_dropped_no_repeats(order, key, origin);
        },
        DragStep::Drop => {
            lemma_dropped_no_repeats(order, key, slot);
        },
        DragStep::Restore => {
            lemma_dropped_no_repeats(order, key, origin);
        },
        _ => {},
    }
    assert forall|k: Seq<char>| #[trigger] o.contains(k) implies !d.contains(k) by {
        if k != key {
            assert(order.contains(k));
        }
    }
}

/// The grid order and popped-out tiles after the tiles in `back` (each with the slot
/// it goes to) come back into the grid, in turn.
pub open spec fn returned(
    order: Seq<Seq<char>>,
    detached: Set<Seq<char>>,
    back: Seq<(Seq<char>, int)>,
) -> (Seq<Seq<char>>, Set<Seq<char>>)
    decreases back.len(),
{
    if back.len() == 0 {
        (order, detached)
    } else {
        returned(dropped_at(order, back[0].0, back[0].1), detached.remove(back[0].0), back.drop_first())
    }
}

/// One frame of the dashboard: the order is reconciled with the tiles that exist
/// (`live`), the held tile, if any, takes its drag step, then the tiles in `back`
/// come back into the grid.
pub open spec fn frame_effect(
    order: Seq<Seq<char>>,
    detached: Seq<Seq<char>>,
    live: Seq<Seq<char>>,
    held: Option<(bool, DragInput, Seq<char>, int, int)>,
    back: Seq<(Seq<char>, int)>,
) -> (Seq<Seq<char>>, Set<Seq<char>>) {
    let o1 = reconciled(order, detached, live);
    let d1 = detached.to_set();
    let (o2, d2) = match held {
        Some((torn, input, key, slot, origin)) => step_effect(drag_step_spec(torn, input), key, slot, origin, o1, d1),
        None => (o1, d1),
    };
    returned(o2, d2, back)
}

proof fn lemma_returns_keep_the_layout(order: Seq<Seq<char>>, detached: Set<Seq<char>>, back: Seq<(Seq<char>, int)>)
    requires
        layout_ok(order, detached),
        forall|i: int| 0 <= i < back.len() ==> 0 <= (#[trigger] back[i]).1,
    ensures
        ({
            let (o, d) = returned(order, detached, back);
            layout_ok(o, d)
        }),
    decreases back.len(),
{
    if back.len() > 0 {
        assert(0 <= back[0].1);
        lemma_return_keeps_the_layout(order, detached, back[0].0, back[0].1);
        let rest = back.drop_first();
        assert forall|i: int| 0 <= i < rest.len() implies 0 <= (#[trigger] rest[i]).1 by {
            assert(rest[i] == back[i + 1]);
        }
        lemma_returns_keep_the_layout(dropped_at(order, back[0].0, back[0].1), detached.remove(back[0].0), rest);
    }
}

/// A popped-out tile is never also docked, and no tile is docked twice, whatever a
/// frame brings: reconciling with the tiles that exist, a drag step of the held tile,
/// and tiles coming back from their windows all keep the layout sound.
pub proof fn lemma_a_frame_keeps_the_layout(
    order: Seq<Seq<char>>,
    detached: Seq<Seq<char>>,
    live: Seq<Seq<char>>,
    held: Option<(bool, DragInput, Seq<char>, int, int)>,
    back: Seq<(Seq<char>, int)>,
)
    requires
        layout_ok(order, detached.to_set()),
        held matches Some((torn, input, key, slot, origin)) ==> held_as(order, detached.to_set(), key, torn)
            && 0 <= slot && 0 <= origin,
        forall|i: int| 0 <= i < back.len() ==> 0 <= (#[trigger] back[i]).1,
    ensures
        ({
            let (o, d) = frame_effect(order, detached, live, held, back);
            layout_ok(o, d)
        }),
{
    let o1 = reconciled(order, detached, live);
    let d1 = detached.to_set();
    lemma_reconciled_layout(order, detached, live);
    match held {
        Some((torn, input, key, slot, origin)) => {
            assert(held_as(o1, d1, key, torn)) by {
                lemma_reconciled_members(order, detached, live, key);
            }
            lemma_a_drag_keeps_the_layout(torn, input, key, slot, origin, o1, d1);
            let (o2, d2) = step_effect(drag_step_spec(torn, input), key, slot, origin, o1, d1);
            lemma_returns_keep_the_layout(o2, d2, back);
        },
        None => {
            lemma_returns_keep_the_layout(o1, d1, back);
        },
    }
}

} // verus!
