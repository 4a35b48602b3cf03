//! Allocation accounting for isolated profiling builds.
//!
//! A [`Ledger`] counts allocation requests by caller stage inside a
//! measurement window opened by [`Ledger::begin`] and closed by
//! [`Ledger::end`]. It tracks the live requested-byte count at all times and
//! the largest live count seen while the window is open. Counters wrap
//! rather than trap, and a free larger than the live count is recorded as an
//! underflow instead of being applied.
use vstd::prelude::*;

verus! {

/// Number of caller stages.
pub const STAGE_COUNT: usize = 4;

/// Disjoint caller scopes. Deallocation is attributed to the freeing scope.
#[derive(Clone, Copy, Debug, PartialEq, Eq, Structural)]
pub enum Stage {
    /// Parsing, adapter work, and untagged allocations.
    Other,
    /// Extracting player snapshot rows.
    Rows,
    /// Growing or merging snapshot columns.
    Columns,
    /// Constructing the returned data frame.
    Frame,
}

/// The slot of a stage in a snapshot, ordered as Other, Rows, Columns, Frame.
pub open spec fn stage_slot(stage: Stage) -> usize {
    match stage {
        Stage::Other => 0,
        Stage::Rows => 1,
        Stage::Columns => 2,
        Stage::Frame => 3,
    }
}

impl Stage {
    /// The slot of this stage in a snapshot.
    pub fn slot(self) -> (r: usize)
        ensures
            r == stage_slot(self),
            r < STAGE_COUNT,
    {
        match self {
            Stage::Other => 0,
            Stage::Rows => 1,
            Stage::Columns => 2,
            Stage::Frame => 3,
        }
    }
}

/// Request counts for one scope.
#[derive(Clone, Copy, Debug, PartialEq, Eq, Structural)]
pub struct Totals {
    pub allocations: u64,
    pub reallocations: u64,
    pub deallocations: u64,
    /// Full requested allocation/reallocation sizes, not net growth.
    pub requested_bytes: u64,
}

/// Totals with every count at zero.
pub open spec fn zero_totals() -> Totals {
    Totals { allocations: 0, reallocations: 0, deallocations: 0, requested_bytes: 0 }
}

impl Default for Totals {
    fn default() -> (r: Self)
        ensures
            r == zero_totals(),
    {
        Totals { allocations: 0, reallocations: 0, deallocations: 0, requested_bytes: 0 }
    }
}

/// Summary of one measurement window, stages ordered as Other, Rows,
/// Columns, Frame.
#[derive(Clone, Copy, Debug)]
pub struct Snapshot {
    pub live_start: u64,
    pub live_end: u64,
    /// Largest observed live requested-byte count during the window.
    pub peak_live: u64,
    /// Must be zero for live/peak accounting to be usable.
    pub underflows: u64,
    pub stages: [Totals; 4],
}

/// The per-stage counters of a ledger.
pub struct Counters {
    allocations: u64,
    reallocations: u64,
    deallocations: u64,
    bytes: u64,
}

impl View for Counters {
    type V = Totals;

    closed spec fn view(&self) -> Totals {
        Totals {
            allocations: self.allocations,
            reallocations: self.reallocations,
            deallocations: self.deallocations,
            requested_bytes: self.bytes,
        }
    }
}

impl Counters {
    /// Counters at zero.
    pub fn new() -> (r: Self)
        ensures
            r@ == zero_totals(),
    {
        Counters { allocations: 0, reallocations: 0, deallocations: 0, bytes: 0 }
    }

    /// Set every counter back to zero.
    pub fn reset(&mut self)
        ensures
            final(self)@ == zero_totals(),
    {
        self.allocations = 0;
        self.reallocations = 0;
        self.deallocations = 0;
        self.bytes = 0;
    }

    /// The current counts.
    pub fn snapshot(&self) -> (r: Totals)
        ensures
            r == self@,
    {
        Totals {
            allocations: self.allocations,
            reallocations: self.reallocations,
            deallocations: self.deallocations,
            requested_bytes: self.bytes,
        }
    }
}

/// The state of a ledger as values.
pub struct LedgerModel {
    pub active: bool,
    pub live: u64,
    pub start: u64,
    pub peak: u64,
    pub underflows: u64,
    pub stages: Seq<Totals>,
}

/// A fresh ledger: no window open, nothing live, every count at zero.
pub open spec fn fresh_ledger() -> LedgerModel {
    LedgerModel {
        active: false,
        live: 0,
        start: 0,
        peak: 0,
        underflows: 0,
        stages: Seq::new(4, |i: int| zero_totals()),
    }
}

/// Opening a window: the stage counts restart at zero and the start and
/// peak take the current live count.
pub open spec fn begin_step(m: LedgerModel) -> LedgerModel {
    LedgerModel {
        active: true,
        start: m.live,
        peak: m.live,
        stages: Seq::new(4, |i: int| zero_totals()),
        ..m
    }
}

/// Closing a window.
pub open spec fn end_step(m: LedgerModel) -> LedgerModel {
    LedgerModel { active: false, ..m }
}

/// What closing a window reports.
pub open spec fn end_report(m: LedgerModel, s: Snapshot) -> bool {
    &&& s.live_start == m.start
    &&& s.live_end == m.live
    &&& s.peak_live == m.peak
    &&& s.underflows == m.underflows
    &&& s.stages@ == m.stages
}

/// `size` more live bytes; while the window is open the peak follows.
pub open spec fn grow_step(m: LedgerModel, size: u64) -> LedgerModel {
    let live = m.live.wrapping_add(size);
    LedgerModel {
        live,
        peak: if m.active && live > m.peak {
            live
        } else {
            m.peak
        },
        ..m
    }
}

/// `size` fewer live bytes, or one more underflow when fewer are live.
pub open spec fn shrink_step(m: LedgerModel, size: u64) -> LedgerModel {
    if size <= m.live {
        LedgerModel { live: (m.live - size) as u64, ..m }
    } else {
        LedgerModel { underflows: m.underflows.wrapping_add(1), ..m }
    }
}

/// Counts of one stage updated while the window is open.
pub open spec fn count_step(m: LedgerModel, stage: int, t: Totals) -> LedgerModel {
    if m.active {
        LedgerModel { stages: m.stages.update(stage, t), ..m }
    } else {
        m
    }
}

/// An allocation of `size` bytes by `stage`.
pub open spec fn alloc_step(m: LedgerModel, stage: int, size: u64) -> LedgerModel {
    let g = grow_step(m, size);
    let t = g.stages[stage];
    count_step(
        g,
        stage,
        Totals {
            allocations: t.allocations.wrapping_add(1),
            requested_bytes: t.requested_bytes.wrapping_add(size),
            ..t
        },
    )
}

/// A deallocation of `size` bytes by `stage`.
pub open spec fn free_step(m: LedgerModel, stage: int, size: u64) -> LedgerModel {
    let s = shrink_step(m, size);
    let t = s.stages[stage];
    count_step(s, stage, Totals { deallocations: t.deallocations.wrapping_add(1), ..t })
}

/// A reallocation by `stage` from `old_size` to `new_size` bytes.
pub open spec fn resize_step(m: LedgerModel, stage: int, old_size: u64, new_size: u64) -> LedgerModel {
    let s = if new_size >= old_size {
        grow_step(m, (new_size - old_size) as u64)
    } else {
        shrink_step(m, (old_size - new_size) as u64)
    };
    let t = s.stages[stage];
    count_step(
        s,
        stage,
        Totals {
            reallocations: t.reallocations.wrapping_add(1),
            requested_bytes: t.requested_bytes.wrapping_add(new_size),
            ..t
        },
    )
}

/// While a window is open the peak never falls below the live count:
/// opening a window establishes it and every request keeps it.
pub proof fn lemma_peak_covers_live(m: LedgerModel, stage: int, a: u64, b: u64)
    requires
        0 <= stage < m.stages.len(),
    ensures
        begin_step(m).peak >= begin_step(m).live,
        m.active && m.peak >= m.live ==> {
            &&& alloc_step(m, stage, a).peak >= alloc_step(m, stage, a).live
            &&& free_step(m, stage, a).peak >= free_step(m, stage, a).live
            &&& resize_step(m, stage, a, b).peak >= resize_step(m, stage, a, b).live
        },
{
}

/// Freeing what was just allocated restores the live count and records no
/// underflow, as long as the allocation did not wrap the counter.
pub proof fn lemma_free_undoes_alloc(m: LedgerModel, stage: int, other: int, size: u64)
    requires
        0 <= stage < m.stages.len(),
        0 <= other < m.stages.len(),
        m.live + size <= u64::MAX,
    ensures
        free_step(alloc_step(m, stage, size), other, size).live == m.live,
        free_step(alloc_step(m, stage, size), other, size).underflows == m.underflows,
{
}

/// Requests outside a window change the live count only: no stage counts,
/// no peak.
pub proof fn lemma_closed_window_counts_nothing(m: LedgerModel, stage: int, a: u64, b: u64)
    requires
        !m.active,
        0 <= stage < m.stages.len(),
    ensures
        alloc_step(m, stage, a).stages == m.stages,
        alloc_step(m, stage, a).peak == m.peak,
        free_step(m, stage, a).stages == m.stages,
        resize_step(m, stage, a, b).stages == m.stages,
        resize_step(m, stage, a, b).peak == m.peak,
{
}

/// Request accounting for one process.
pub struct Ledger {
    active: bool,
    live: u64,
    start: u64,
    peak: u64,
    underflows: u64,
    stages: [Counters; 4],
}

impl View for Ledger {
    type V = LedgerModel;

    closed spec fn view(&self) -> LedgerModel {
        LedgerModel {
            active: self.active,
            live: self.live,
            start: self.start,
            peak: self.peak,
            underflows: self.underflows,
            stages: self.stages@.map_values(|c: Counters| c@),
        }
    }
}

impl Ledger {
    /// A ledger with no window open and nothing live.
    pub fn new() -> (r: Self)
        ensures
            r@ == fresh_ledger(),
    {
        let r = Ledger {
            active: false,
            live: 0,
            start: 0,
            peak: 0,
            underflows: 0,
            stages: [Counters::new(), Counters::new(), Counters::new(), Counters::new()],
        };
        assert(r@.stages =~= fresh_ledger().stages);
        r
    }

    /// Whether a measurement window is open.
    pub fn is_active(&self) -> (r: bool)
        ensures
            r == self@.active,
    {
        self.active
    }

    /// Start a measurement after all previous work has finished.
    pub fn begin(&mut self)
        ensures
            final(self)@ == begin_step(old(self)@),
    {
        self.active = false;
        let mut i: usize = 0;
        while i < STAGE_COUNT
            invariant
                i <= STAGE_COUNT,
                self.stages@.len() == STAGE_COUNT,
                forall|j: int| 0 <= j < i ==> (#[trigger] self.stages@[j])@ == zero_totals(),
                self.live == old(self).live,
                self.underflows == old(self).underflows,
            decreases STAGE_COUNT - i,
        {
            self.stages[i].reset();
            i = i + 1;
        }
        let live = self.live;
        self.start = live;
        self.peak = live;
        self.active = true;
        assert(self@.stages =~= begin_step(old(self)@).stages);
    }

    /// Finish a measurement after the current work has finished.
    pub fn end(&mut self) -> (r: Snapshot)
        ensures
            final(self)@ == end_step(old(self)@),
            end_report(old(self)@, r),
    {
        self.active = false;
        let stages = [
            self.stages[0].snapshot(),
            self.stages[1].snapshot(),
            self.stages[2].snapshot(),
            self.stages[3].snapshot(),
        ];
        let r = Snapshot {
            live_start: self.start,
            live_end: self.live,
            peak_live: self.peak,
            underflows: self.underflows,
            stages,
        };
        assert(r.stages@ =~= old(self)@.stages);
        r
    }

    fn grow(&mut self, size: usize)
        ensures
            final(self)@ == grow_step(old(self)@, size as u64),
    {
        let live = self.live.wrapping_add(size as u64);
        self.live = live;
        if self.active && live > self.peak {
            self.peak = live;
        }
    }

    fn shrink(&mut self, size: usize)
        ensures
            final(self)@ == shrink_step(old(self)@, size as u64),
    {
        let size = size as u64;
        if size <= self.live {
            self.live = self.live - size;
        } else {
            self.underflows = self.underflows.wrapping_add(1);
        }
    }

    /// Account an allocation of `size` bytes made by the stage in slot `stage`.
    pub fn allocate(&mut self, stage: usize, size: usize)
        requires
            stage < STAGE_COUNT,
        ensures
            final(self)@ == alloc_step(old(self)@, stage as int, size as u64),
    {
        self.grow(size);
        if self.active {
            let c = &mut self.stages[stage];
            c.allocations = c.allocations.wrapping_add(1);
            c.bytes = c.bytes.wrapping_add(size as u64);
        }
        assert(self@.stages =~= alloc_step(old(self)@, stage as int, size as u64).stages);
    }

    /// Account a deallocation of `size` bytes made by the stage in slot `stage`.
    pub fn free(&mut self, stage: usize, size: usize)
        requires
            stage < STAGE_COUNT,
        ensures
            final(self)@ == free_step(old(self)@, stage as int, size as u64),
    {
        self.shrink(size);
        if self.active {
            let c = &mut self.stages[stage];
            c.deallocations = c.deallocations.wrapping_add(1);
        }
        assert(self@.stages =~= free_step(old(self)@, stage as int, size as u64).stages);
    }

    /// Account a reallocation from `old_size` to `new_size` bytes made by the
    /// stage in slot `stage`.
    pub fn resize(&mut self, stage: usize, old_size: usize, new_size: usize)
        requires
            stage < STAGE_COUNT,
        ensures
            final(self)@ == resize_step(old(self)@, stage as int, old_size as u64, new_size as u64),
    {
        if new_size >= old_size {
            self.grow(new_size - old_size);
        } else {
            self.shrink(old_size - new_size);
        }
        if self.active {
            let c = &mut self.stages[stage];
            c.reallocations = c.reallocations.wrapping_add(1);
            c.bytes = c.bytes.wrapping_add(new_size as u64);
        }
        assert(self@.stages =~= resize_step(old(self)@, stage as int, old_size as u64, new_size as u64).stages);
    }
}

} // verus!
