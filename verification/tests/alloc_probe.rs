use pbdems2::alloc_probe::{Ledger, Stage, STAGE_COUNT};

#[test]
fn windows_track_live_bytes_reallocation_and_outside_window_frees() {
    let mut ledger = Ledger::new();
    ledger.allocate(0, 100);
    ledger.begin();
    ledger.allocate(1, 40);
    ledger.resize(1, 40, 80);
    ledger.resize(1, 80, 20);
    ledger.free(2, 100);
    let result = ledger.end();
    assert_eq!(
        (result.live_start, result.live_end, result.peak_live),
        (100, 20, 180)
    );
    assert_eq!(result.stages[1].allocations, 1);
    assert_eq!(result.stages[1].reallocations, 2);
    assert_eq!(result.stages[1].requested_bytes, 140);
    assert_eq!(result.stages[2].deallocations, 1);
    ledger.free(0, 20);
    ledger.begin();
    let result = ledger.end();
    assert_eq!(
        (
            result.live_start,
            result.live_end,
            result.peak_live,
            result.underflows
        ),
        (0, 0, 0, 0)
    );
    assert_eq!(result.stages[1].allocations, 0);
}

#[test]
fn invalid_accounting_is_visible() {
    let mut ledger = Ledger::new();
    ledger.free(0, 1);
    assert_eq!(ledger.end().underflows, 1);
}

#[test]
fn stages_occupy_their_documented_slots() {
    assert_eq!(Stage::Other.slot(), 0);
    assert_eq!(Stage::Rows.slot(), 1);
    assert_eq!(Stage::Columns.slot(), 2);
    assert_eq!(Stage::Frame.slot(), 3);
    assert_eq!(STAGE_COUNT, 4);
}

#[test]
fn freeing_an_allocation_restores_the_live_count() {
    let mut ledger = Ledger::new();
    ledger.allocate(3, 7);
    ledger.begin();
    ledger.allocate(2, 50);
    ledger.free(1, 50);
    let result = ledger.end();
    assert_eq!((result.live_start, result.live_end, result.peak_live), (7, 7, 57));
    assert_eq!(result.underflows, 0);
    assert_eq!(result.stages[2].allocations, 1);
    assert_eq!(result.stages[2].requested_bytes, 50);
    assert_eq!(result.stages[1].deallocations, 1);
}

#[test]
fn closed_windows_count_nothing() {
    let mut ledger = Ledger::new();
    ledger.allocate(1, 10);
    ledger.resize(1, 10, 30);
    let result = ledger.end();
    assert_eq!(result.live_end, 30);
    assert_eq!(result.peak_live, 0);
    assert_eq!(result.stages[1].allocations, 0);
    assert_eq!(result.stages[1].reallocations, 0);
    assert!(!ledger.is_active());
}

#[test]
fn live_count_wraps_rather_than_trapping() {
    let mut ledger = Ledger::new();
    ledger.allocate(0, usize::MAX);
    ledger.allocate(0, 2);
    let result = ledger.end();
    assert_eq!(result.live_end, if usize::BITS == 64 { 1 } else { (usize::MAX as u64) + 2 });
}
