use hyperion::dashboard::drag::{apply_step, drag_step, DragInput, DragStep, PopChange};
use hyperion::dashboard::grid::{
    clamp_span, place, slot_after, Placed, MAX_COLUMNS, MAX_ROWS, ONE_CELL,
};
use hyperion::dashboard::tiles::{
    collect, drive_shown, gpu_shown, short_gpu_name, window_title, Card, GpuFacts, GpuView,
    SnapshotFacts, Tile,
};
use hyperion::metrics::{EnabledSet, MetricId};
use hyperion::dashboard::{
    drop_at, move_in_order, reconcile_order, return_to_grid, set_span, span_of, Spans,
};

fn v(keys: &[&str]) -> Vec<String> {
    keys.iter().map(|s| s.to_string()).collect()
}

fn at(row: usize, col: usize, span: [usize; 2]) -> Placed {
    Placed { row, col, span }
}

#[test]
fn dragging_onto_the_next_tile_swaps_them() {
    let mut order = v(&["cpu", "memory", "net"]);
    move_in_order(&mut order, "cpu", "memory");
    assert_eq!(order, v(&["memory", "cpu", "net"]));
}

#[test]
fn dragging_onto_the_previous_tile_swaps_them() {
    let mut order = v(&["cpu", "memory", "net"]);
    move_in_order(&mut order, "memory", "cpu");
    assert_eq!(order, v(&["memory", "cpu", "net"]));
}

#[test]
fn long_forward_drag_takes_target_slot_and_shifts_the_rest_back() {
    let mut order = v(&["a", "b", "c", "d"]);
    move_in_order(&mut order, "a", "c");
    assert_eq!(order, v(&["b", "c", "a", "d"]));
}

#[test]
fn long_backward_drag_takes_target_slot_and_shifts_the_rest_forward() {
    let mut order = v(&["a", "b", "c", "d"]);
    move_in_order(&mut order, "d", "b");
    assert_eq!(order, v(&["a", "d", "b", "c"]));
}

#[test]
fn move_to_self_or_unknown_is_a_no_op() {
    let mut order = v(&["a", "b"]);
    move_in_order(&mut order, "a", "a");
    move_in_order(&mut order, "a", "missing");
    assert_eq!(order, v(&["a", "b"]));
}

#[test]
fn drop_at_inserts_among_the_other_tiles() {
    let mut order = v(&["cpu", "memory", "net"]);
    drop_at(&mut order, "cpu", 1);
    assert_eq!(order, v(&["memory", "cpu", "net"]));
    drop_at(&mut order, "net", 0);
    assert_eq!(order, v(&["net", "memory", "cpu"]));
    drop_at(&mut order, "net", 99);
    assert_eq!(order, v(&["memory", "cpu", "net"]));
}

#[test]
fn dropping_a_new_tile_adds_it_once() {
    let mut order = v(&["a", "b", "a"]);
    drop_at(&mut order, "a", 1);
    assert_eq!(order, v(&["b", "a"]));
    drop_at(&mut order, "c", 0);
    assert_eq!(order, v(&["c", "b", "a"]));
}

#[test]
fn dashboard_reconcile_drops_missing_and_appends_new() {
    let mut order = v(&["disk:sdb", "cpu", "gone"]);
    let keys = v(&["cpu", "memory", "disk:sdb"]);
    reconcile_order(&mut order, &[], &keys);
    assert_eq!(order, v(&["disk:sdb", "cpu", "memory"]));
}

#[test]
fn mod_reconcile_drops_missing_and_appends_new() {
    let mut order = v(&["disk:sdb", "cpu", "gone"]);
    let keys = v(&["cpu", "memory", "disk:sdb"]);
    reconcile_order(&mut order, &[], &keys);
    assert_eq!(order, v(&["disk:sdb", "cpu", "memory"]));
}

#[test]
fn dashboard_reconcile_keeps_detached_tiles_out_of_the_grid() {
    let mut order = v(&["cpu", "memory"]);
    let detached = v(&["memory"]);
    let keys = v(&["cpu", "memory"]);
    reconcile_order(&mut order, &detached, &keys);
    assert_eq!(order, v(&["cpu"]));
}

#[test]
fn mod_reconcile_keeps_detached_tiles_out_of_the_grid() {
    let mut order = v(&["cpu", "memory"]);
    let detached = v(&["memory"]);
    let keys = v(&["cpu", "memory"]);
    reconcile_order(&mut order, &detached, &keys);
    assert_eq!(order, v(&["cpu"]));
}

#[test]
fn reconciling_lists_each_tile_once() {
    let mut order = v(&["net", "cpu"]);
    let keys = v(&["cpu", "gpu:0", "net", "gpu:0", "memory"]);
    reconcile_order(&mut order, &[], &keys);
    assert_eq!(order, v(&["net", "cpu", "gpu:0", "memory"]));
    reconcile_order(&mut order, &[], &keys);
    assert_eq!(order, v(&["net", "cpu", "gpu:0", "memory"]));
}

#[test]
fn return_to_grid_prefers_the_drop_slot_then_home_then_the_end() {
    let mut order = v(&["memory", "net"]);
    return_to_grid(&mut order, "cpu", None, Some(0));
    assert_eq!(order, v(&["cpu", "memory", "net"]));

    let mut order = v(&["memory", "net"]);
    return_to_grid(&mut order, "cpu", Some(1), Some(0));
    assert_eq!(order, v(&["memory", "cpu", "net"]));

    let mut order = v(&["memory", "net"]);
    return_to_grid(&mut order, "cpu", None, None);
    assert_eq!(order, v(&["memory", "net", "cpu"]));
}

#[test]
fn saved_spans_are_clamped_and_one_cell_is_not_stored() {
    assert_eq!(clamp_span([9, 0]), [MAX_COLUMNS, 1]);
    assert_eq!(clamp_span([2, 200]), [2, MAX_ROWS]);
    let mut spans = Spans::new();
    assert_eq!(span_of(&spans, "cpu"), ONE_CELL);
    set_span(&mut spans, "cpu", [2, 3]);
    assert_eq!(span_of(&spans, "cpu"), [2, 3]);
    assert_eq!(spans.get("cpu"), Some([2, 3]));
    set_span(&mut spans, "cpu", ONE_CELL);
    assert_eq!(spans.get("cpu"), None);
    spans.insert("net", [9, 9]);
    assert_eq!(span_of(&spans, "net"), [MAX_COLUMNS, MAX_ROWS]);
    assert_eq!(spans.entries(), vec![("net".to_owned(), [9, 9])]);
}

#[test]
fn a_wide_tile_takes_the_row_and_pushes_the_rest_down() {
    let p = place(2, &[[2, 1], ONE_CELL, ONE_CELL]);
    assert_eq!(p, vec![at(0, 0, [2, 1]), at(1, 0, ONE_CELL), at(1, 1, ONE_CELL)]);
}

#[test]
fn a_wide_tile_that_does_not_fit_starts_the_next_row_leaving_a_hole() {
    // Row 0 = [0, hole], row 1 = [1 1], row 2 = [2]: later tiles never go back.
    let p = place(2, &[ONE_CELL, [2, 1], ONE_CELL]);
    assert_eq!(p, vec![at(0, 0, ONE_CELL), at(1, 0, [2, 1]), at(2, 0, ONE_CELL)]);
}

#[test]
fn a_tall_tile_spans_rows_and_others_flow_beside_it() {
    // Row 0 = [0, 1], row 1 = [0, 2], row 2 = [3].
    let p = place(2, &[[1, 2], ONE_CELL, ONE_CELL, ONE_CELL]);
    assert_eq!(
        p,
        vec![at(0, 0, [1, 2]), at(0, 1, ONE_CELL), at(1, 1, ONE_CELL), at(2, 0, ONE_CELL)]
    );
}

#[test]
fn tiles_fill_rows_left_to_right() {
    let p = place(3, &[ONE_CELL; 4]);
    assert_eq!(
        p,
        vec![at(0, 0, ONE_CELL), at(0, 1, ONE_CELL), at(0, 2, ONE_CELL), at(1, 0, ONE_CELL)]
    );
}

#[test]
fn tile_keys_and_titles() {
    assert_eq!(Card::Cpu.key(), "cpu");
    assert_eq!(Card::Net("eth0").key(), "net:eth0");
    assert_eq!(Card::Drive { id: "S59U", model: "Samsung SSD" }.key(), "drive:S59U");
    let gpu = Card::Gpu { id: "0000:03:00.0", name: "Radeon RX 6600/6600 XT", view: GpuView::Temp };
    assert_eq!(gpu.key(), "gpu:0000:03:00.0:temp");
    assert_eq!(gpu.title(), "Radeon RX 6600 · Temperature");
    assert_eq!(Card::Net("eth0").title(), "Network · eth0");
    assert_eq!(Card::Drive { id: "S59U", model: "Samsung SSD" }.title(), "Samsung SSD");
    assert_eq!(Card::Memory.title(), "Memory");
    assert_eq!(short_gpu_name("  Radeon RX 6600 /6600 XT"), "Radeon RX 6600");
    assert_eq!(window_title("CPU"), "Hyperion — CPU");
    assert_eq!(GpuView::Usage.key(), "usage");
    assert_eq!(GpuView::Power.label(), "Power");
}

fn gpu(choice: Option<bool>, integrated: bool) -> GpuFacts {
    GpuFacts {
        choice,
        integrated,
        usage: true,
        clock: true,
        power: true,
        vram: true,
        system_memory: true,
        temps: true,
    }
}

fn all_on() -> EnabledSet {
    let mut e = EnabledSet::default();
    for id in MetricId::ALL {
        e.set(id, true);
    }
    e
}

#[test]
fn tiles_come_in_default_order() {
    let facts = SnapshotFacts {
        cpu: true,
        mem: true,
        gpus: vec![gpu(None, false)],
        nets: 2,
        drives: vec![(None, true), (None, false)],
    };
    assert_eq!(
        collect(&facts, all_on()),
        vec![
            Tile::Cpu,
            Tile::Gpu(0, GpuView::Usage),
            Tile::Gpu(0, GpuView::Power),
            Tile::Gpu(0, GpuView::Memory),
            Tile::Gpu(0, GpuView::Temp),
            Tile::Memory,
            Tile::Net(0),
            Tile::Net(1),
            Tile::Drive(0),
        ]
    );
}

#[test]
fn integrated_gpu_shows_only_when_it_is_the_only_kind() {
    let alone = SnapshotFacts {
        cpu: false,
        mem: false,
        gpus: vec![gpu(None, true)],
        nets: 0,
        drives: vec![],
    };
    assert_eq!(collect(&alone, all_on()).len(), 4);
    let beside = SnapshotFacts {
        cpu: false,
        mem: false,
        gpus: vec![gpu(None, true), gpu(None, false)],
        nets: 0,
        drives: vec![],
    };
    let tiles = collect(&beside, all_on());
    assert_eq!(tiles.len(), 4);
    assert!(tiles.iter().all(|t| matches!(t, Tile::Gpu(1, _))));
    // The user's choice wins over the default.
    let chosen = SnapshotFacts {
        cpu: false,
        mem: false,
        gpus: vec![gpu(Some(true), true), gpu(Some(false), false)],
        nets: 0,
        drives: vec![(Some(true), false), (Some(false), true)],
    };
    let tiles = collect(&chosen, all_on());
    assert!(tiles.iter().all(|t| matches!(t, Tile::Gpu(0, _) | Tile::Drive(0))));
    assert_eq!(tiles.len(), 5);
}

#[test]
fn tiles_follow_the_enabled_metrics_and_the_data() {
    let mut e = EnabledSet::default();
    e.set(MetricId::GpuTemp, true);
    e.set(MetricId::SwapUsage, true);
    e.set(MetricId::DiskSpace, true);
    let mut g = gpu(None, false);
    g.temps = false;
    let facts = SnapshotFacts {
        cpu: true,
        mem: true,
        gpus: vec![g, gpu(None, false)],
        nets: 3,
        drives: vec![(None, true)],
    };
    assert_eq!(
        collect(&facts, e),
        vec![Tile::Gpu(1, GpuView::Temp), Tile::Memory, Tile::Drive(0)]
    );
    assert!(collect(&facts, EnabledSet::default()).is_empty());
}

#[test]
fn a_gpu_tile_shows_for_any_of_its_readings() {
    let mut e = EnabledSet::default();
    e.set(MetricId::GpuUsage, true);
    e.set(MetricId::GpuMemory, true);
    let mut g = gpu(None, false);
    g.usage = false;
    g.vram = false;
    let facts = SnapshotFacts { cpu: false, mem: false, gpus: vec![g], nets: 0, drives: vec![] };
    assert_eq!(collect(&facts, e), vec![Tile::Gpu(0, GpuView::Usage), Tile::Gpu(0, GpuView::Memory)]);
    g.clock = false;
    g.system_memory = false;
    let facts = SnapshotFacts { cpu: false, mem: false, gpus: vec![g], nets: 0, drives: vec![] };
    assert!(collect(&facts, e).is_empty());
}

#[test]
fn device_defaults() {
    assert!(drive_shown(None, true));
    assert!(!drive_shown(None, false));
    assert!(drive_shown(Some(true), false));
    assert!(!gpu_shown(None, true, true));
    assert!(gpu_shown(None, true, false));
    assert!(gpu_shown(None, false, true));
    assert!(!gpu_shown(Some(false), false, true));
}

fn input(cancelled: bool, held: bool, over_grid: bool, outside: bool, inside: bool) -> DragInput {
    DragInput {
        cancelled,
        held,
        over_grid,
        outside_window: outside,
        back_inside: inside,
    }
}

#[test]
fn escape_cancels_a_drag_in_the_grid_or_torn_off() {
    assert_eq!(drag_step(false, input(true, true, true, false, true)), DragStep::Cancel);
    assert_eq!(drag_step(true, input(true, true, false, true, false)), DragStep::Cancel);
}

#[test]
fn a_tile_tears_off_at_the_window_edge_and_docks_again_on_return() {
    // Carried inside the window.
    assert_eq!(
        drag_step(false, input(false, true, true, false, true)),
        DragStep::Carry { torn: false, tear_off: false, dock: false }
    );
    // Out of the window: it becomes a window.
    assert_eq!(
        drag_step(false, input(false, true, false, true, false)),
        DragStep::Carry { torn: true, tear_off: true, dock: false }
    );
    // Just inside the edge: still a window, no flipping back and forth.
    assert_eq!(
        drag_step(true, input(false, true, false, false, false)),
        DragStep::Carry { torn: true, tear_off: false, dock: false }
    );
    // Well inside again: back in the grid.
    assert_eq!(
        drag_step(true, input(false, true, true, false, true)),
        DragStep::Carry { torn: false, tear_off: false, dock: true }
    );
}

#[test]
fn letting_go_decides_where_the_tile_lands() {
    // Over the grid: into the slot under the pointer.
    assert_eq!(drag_step(false, input(false, false, true, false, true)), DragStep::Drop);
    // Over the top bar or the settings: back where it came from.
    assert_eq!(drag_step(false, input(false, false, false, false, true)), DragStep::Restore);
    // Outside the window before any frame saw it leave: popped out right there.
    assert_eq!(
        drag_step(false, input(false, false, false, true, false)),
        DragStep::Settle { tear_off: true }
    );
    // Already a window: it stays one, wherever it is let go.
    assert_eq!(
        drag_step(true, input(false, false, true, false, true)),
        DragStep::Settle { tear_off: false }
    );
}

#[test]
fn a_drop_in_a_hole_goes_to_the_next_tile_or_last() {
    // Two columns: a wide tile on row 0, then two single tiles on row 1.
    let placed = place(2, &[[2, 1], ONE_CELL, ONE_CELL]);
    // The empty end of row 1 is after every tile: the last slot.
    assert_eq!(slot_after(&placed, 1, 2), 2);
    // Below the grid: the last slot.
    assert_eq!(slot_after(&placed, 5, 0), 2);
    // Before the first tile of row 1 (right of the wide tile's row): that tile.
    assert_eq!(slot_after(&placed, 0, 3), 1);
    let one = vec![Placed { row: 0, col: 0, span: ONE_CELL }];
    assert_eq!(slot_after(&one, 0, 0), 0);
}

#[test]
fn a_drag_step_moves_the_tile_in_the_order_and_says_what_pops_out() {
    let mut order = v(&["cpu", "memory", "net"]);
    let c = apply_step(
        DragStep::Carry { torn: true, tear_off: true, dock: false },
        &mut order,
        "memory",
        0,
        1,
    );
    assert_eq!(c, PopChange::PopOut);
    assert_eq!(order, v(&["cpu", "net"]));
    let c = apply_step(
        DragStep::Carry { torn: false, tear_off: false, dock: true },
        &mut order,
        "memory",
        0,
        1,
    );
    assert_eq!(c, PopChange::Dock);
    assert_eq!(order, v(&["cpu", "net"]));
    let c = apply_step(DragStep::Drop, &mut order, "memory", 0, 1);
    assert_eq!(c, PopChange::Keep);
    assert_eq!(order, v(&["memory", "cpu", "net"]));
    let c = apply_step(DragStep::Cancel, &mut order, "memory", 5, 1);
    assert_eq!(c, PopChange::Dock);
    assert_eq!(order, v(&["cpu", "memory", "net"]));
    let c = apply_step(DragStep::Settle { tear_off: true }, &mut order, "net", 0, 2);
    assert_eq!(c, PopChange::PopOut);
    assert_eq!(order, v(&["cpu", "memory"]));
    let c = apply_step(DragStep::Restore, &mut order, "cpu", 0, 1);
    assert_eq!(c, PopChange::Keep);
    assert_eq!(order, v(&["memory", "cpu"]));
}

#[test]
fn saved_spans_list_each_tile_once() {
    let mut spans = Spans::new();
    set_span(&mut spans, "cpu", [2, 1]);
    set_span(&mut spans, "net", [1, 2]);
    set_span(&mut spans, "cpu", [3, 2]);
    let e = spans.entries();
    assert_eq!(e.len(), 2);
    assert!(e.contains(&("cpu".to_owned(), [3, 2])));
    assert!(e.contains(&("net".to_owned(), [1, 2])));
}
