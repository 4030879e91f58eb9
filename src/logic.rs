use vstd::prelude::*;

use crate::error::OrbyError;
use crate::types::{LogicMode, PulseCell, SaveMode};

verus! {

/// Whether every cell of a row is zero (an empty slot, or a tombstone).
pub open spec fn row_is_zero(row: Seq<u128>) -> bool {
    forall|d: int| 0 <= d < row.len() ==> row[d] == 0
}

/// The ring position `k` steps after `start`, for `start < cap` and `k <= cap`.
pub open spec fn ring_add(start: int, k: int, cap: int) -> int {
    if start + k < cap {
        start + k
    } else {
        start + k - cap
    }
}

/// How many steps after `start` the slot `i` lies, both in `[0, cap)`.
pub open spec fn ring_offset(i: int, start: int, cap: int) -> int {
    if i >= start {
        i - start
    } else {
        i + cap - start
    }
}

/// Mathematical picture of a store: one sequence of cells per lane, plus the
/// write cursor, the live-row count and the capacity.
pub struct RingView {
    pub lanes: Seq<Seq<u128>>,
    pub cursor: int,
    pub len: int,
    pub capacity: int,
}

impl RingView {
    /// The invariants every reachable store keeps.
    pub open spec fn wf(self) -> bool {
        &&& self.lanes.len() >= 1
        &&& self.capacity >= 1
        &&& forall|d: int| 0 <= d < self.lanes.len() ==> #[trigger] self.lanes[d].len() == self.capacity
        &&& 0 <= self.cursor < self.capacity
        &&& 0 <= self.len <= self.capacity
    }

    /// The row stored at physical slot `i`, one cell per lane.
    pub open spec fn row(self, i: int) -> Seq<u128> {
        Seq::new(self.lanes.len(), |d: int| self.lanes[d][i])
    }

    /// Physical slot of logical index `k` (0 is the newest row).
    pub open spec fn physical(self, k: int) -> int {
        if self.cursor > k {
            self.cursor - 1 - k
        } else {
            self.capacity + self.cursor - 1 - k
        }
    }

    /// The row at logical index `k`.
    pub open spec fn logical_row(self, k: int) -> Seq<u128> {
        self.row(self.physical(k))
    }

    /// The same cells with `row` written at slot `i`.
    pub open spec fn lanes_with_row(self, i: int, row: Seq<u128>) -> Seq<Seq<u128>> {
        Seq::new(self.lanes.len(), |d: int| self.lanes[d].update(i, row[d]))
    }

    /// One row inserted at the cursor.
    pub open spec fn insert_row(self, row: Seq<u128>) -> RingView {
        RingView {
            lanes: self.lanes_with_row(self.cursor, row),
            cursor: ring_add(self.cursor, 1, self.capacity),
            len: if self.lanes[0][self.cursor] == 0 && self.len < self.capacity {
                self.len + 1
            } else {
                self.len
            },
            capacity: self.capacity,
        }
    }

    /// Rows inserted one after another, first row first.
    pub open spec fn insert_rows(self, rows: Seq<Seq<u128>>) -> RingView
        decreases rows.len(),
    {
        if rows.len() == 0 {
            self
        } else {
            self.insert_rows(rows.drop_last()).insert_row(rows.last())
        }
    }

    /// `values` written into lane `lane` from the cursor on, with wrap-around; the
    /// other lanes are zeroed over the same slots.
    pub open spec fn lane_batch(self, lane: int, values: Seq<u128>) -> RingView {
        RingView {
            lanes: Seq::new(
                self.lanes.len(),
                |d: int|
                    Seq::new(
                        self.capacity as nat,
                        |i: int|
                            if ring_offset(i, self.cursor, self.capacity) < values.len() {
                                if d == lane {
                                    values[ring_offset(i, self.cursor, self.capacity)]
                                } else {
                                    0
                                }
                            } else {
                                self.lanes[d][i]
                            },
                    ),
            ),
            cursor: ring_add(self.cursor, values.len() as int, self.capacity),
            len: if self.len + values.len() < self.capacity {
                self.len + values.len()
            } else {
                self.capacity
            },
            capacity: self.capacity,
        }
    }

    /// Every row whose cell in lane `lane` equals `id` replaced by `row`.
    pub open spec fn update_matching(self, lane: int, id: u128, row: Seq<u128>) -> RingView {
        RingView {
            lanes: Seq::new(
                self.lanes.len(),
                |d: int|
                    Seq::new(
                        self.capacity as nat,
                        |i: int|
                            if self.lanes[lane][i] == id {
                                row[d]
                            } else {
                                self.lanes[d][i]
                            },
                    ),
            ),
            ..self
        }
    }

    /// Whether some slot holds `id` in lane `lane`.
    pub open spec fn has_match(self, lane: int, id: u128) -> bool {
        exists|i: int| 0 <= i < self.capacity && self.lanes[lane][i] == id
    }

    /// Number of slots in `[0, n)` whose cell in lane `lane` equals `id`.
    pub open spec fn count_matches(self, lane: int, id: u128, n: int) -> int
        decreases n,
    {
        if n <= 0 {
            0
        } else {
            self.count_matches(lane, id, n - 1) + if self.lanes[lane][n - 1] == id {
                1int
            } else {
                0int
            }
        }
    }

    /// Every row whose cell in lane `lane` equals `id` zeroed; the count drops by
    /// one per such row, down to zero.
    pub open spec fn purge_matching(self, lane: int, id: u128) -> RingView {
        let hits = self.count_matches(lane, id, self.capacity);
        RingView {
            lanes: Seq::new(
                self.lanes.len(),
                |d: int|
                    Seq::new(
                        self.capacity as nat,
                        |i: int|
                            if self.lanes[lane][i] == id {
                                0
                            } else {
                                self.lanes[d][i]
                            },
                    ),
            ),
            len: if self.len >= hits {
                self.len - hits
            } else {
                0
            },
            ..self
        }
    }

    /// The row at slot `idx` zeroed and the count lowered by one; with
    /// `compaction`, later slots also move one step toward `idx`, the last slot
    /// is zeroed and the cursor is set to the new count.
    pub open spec fn delete_at(self, idx: int, compaction: bool) -> RingView {
        let new_len = if self.len > 0 {
            self.len - 1
        } else {
            0
        };
        if compaction {
            RingView {
                lanes: Seq::new(
                    self.lanes.len(),
                    |d: int|
                        Seq::new(
                            self.capacity as nat,
                            |i: int|
                                if i < idx {
                                    self.lanes[d][i]
                                } else if i + 1 < self.capacity {
                                    self.lanes[d][i + 1]
                                } else {
                                    0
                                },
                        ),
                ),
                cursor: new_len,
                len: new_len,
                capacity: self.capacity,
            }
        } else {
            RingView {
                lanes: Seq::new(self.lanes.len(), |d: int| self.lanes[d].update(idx, 0)),
                len: new_len,
                ..self
            }
        }
    }

    /// All cells zero, cursor and count reset.
    pub open spec fn cleared(self) -> RingView {
        RingView {
            lanes: Seq::new(
                self.lanes.len(),
                |d: int| Seq::new(self.capacity as nat, |i: int| 0u128),
            ),
            cursor: 0,
            len: 0,
            capacity: self.capacity,
        }
    }

    /// Everything dropped, then at most `capacity` of `rows` inserted.
    pub open spec fn truncate_with(self, rows: Seq<Seq<u128>>) -> RingView {
        let n = if rows.len() <= self.capacity {
            rows.len() as int
        } else {
            self.capacity
        };
        self.cleared().insert_rows(rows.take(n))
    }

    /// How many slots a latest-first scan visits: the slots below the cursor, or
    /// every slot once the ring is full.
    pub open spec fn scan_len(self) -> int {
        if self.len == self.capacity {
            self.capacity
        } else {
            self.cursor
        }
    }

    /// Number of non-zero cells of lane 0 over the written region.
    pub open spec fn active_count(self) -> int {
        let limit = if self.cursor == 0 && self.len > 0 {
            self.capacity
        } else {
            self.cursor
        };
        self.count_nonzero(limit)
    }

    pub open spec fn count_nonzero(self, n: int) -> int
        decreases n,
    {
        if n <= 0 {
            0
        } else {
            self.count_nonzero(n - 1) + if self.lanes[0][n - 1] != 0 {
                1int
            } else {
                0int
            }
        }
    }
}

/// One lane: a fixed-length column of cells.
pub struct OrbyRingBuffer {
    pub buffer: Vec<PulseCell>,
}

impl OrbyRingBuffer {
    /// A lane of `capacity` empty cells.
    pub fn new(capacity: usize) -> (r: Self)
        ensures
            r.buffer@.len() == capacity,
            forall|i: int| 0 <= i < capacity ==> (#[trigger] r.buffer@[i]).0 == 0,
    {
        let mut buffer: Vec<PulseCell> = Vec::new();
        let mut i: usize = 0;
        while i < capacity
            invariant
                i <= capacity,
                buffer@.len() == i,
                forall|j: int| 0 <= j < i ==> (#[trigger] buffer@[j]).0 == 0,
            decreases capacity - i,
        {
            buffer.push(PulseCell::new(0));
            i = i + 1;
        }
        OrbyRingBuffer { buffer }
    }
}

/// The whole column store: one lane per dimension plus its bookkeeping.
pub struct OrbyRingBufferSilo {
    pub name: String,
    pub lanes: Vec<OrbyRingBuffer>,
    pub cursor: usize,
    pub len: usize,
    pub capacity: usize,
    pub ring_buffer_lane_count: usize,
    pub compaction: bool,
    pub logic_mode: LogicMode,
    pub storage_mode: SaveMode,
    pub aof_enabled: bool,
    pub vault_path: Option<String>,
}

impl View for OrbyRingBufferSilo {
    type V = RingView;

    open spec fn view(&self) -> RingView {
        RingView {
            lanes: Seq::new(
                self.lanes@.len(),
                |d: int|
                    Seq::new(self.lanes@[d].buffer@.len(), |i: int| self.lanes@[d].buffer@[i].0),
            ),
            cursor: self.cursor as int,
            len: self.len as int,
            capacity: self.capacity as int,
        }
    }
}

impl OrbyRingBufferSilo {
    /// The invariants of the store, with the configured sizes matching its lanes.
    pub open spec fn wf(&self) -> bool {
        &&& self@.wf()
        &&& self.lanes@.len() == self.ring_buffer_lane_count
        &&& forall|d: int|
            0 <= d < self.lanes@.len() ==> #[trigger] self.lanes@[d].buffer@.len() == self.capacity
    }

    /// A store of `ring_buffer_lane_count` empty lanes of `capacity` cells.
    pub fn new(
        name: String,
        capacity: usize,
        ring_buffer_lane_count: usize,
        storage_mode: SaveMode,
        logic_mode: LogicMode,
        compaction: bool,
        aof_enabled: bool,
        vault_path: Option<String>,
    ) -> (r: Result<Self, OrbyError>)
        ensures
            capacity == 0 || ring_buffer_lane_count == 0 <==> r is Err,
            r matches Ok(s) ==> {
                &&& s.wf()
                &&& s.capacity == capacity
                &&& s.ring_buffer_lane_count == ring_buffer_lane_count
                &&& s.cursor == 0
                &&& s.len == 0
                &&& s@.lanes == s@.cleared().lanes
                &&& s.name@ == name@
                &&& s.compaction == compaction
                &&& s.aof_enabled == aof_enabled
                &&& s.storage_mode == storage_mode
                &&& s.vault_path == vault_path
            },
    {
        if capacity == 0 || ring_buffer_lane_count == 0 {
            return Err(
                OrbyError::InconsistentState {
                    name: name,
                    message: String::from_str("capacity and lane count must be at least 1"),
                },
            );
        }
        let mut lanes: Vec<OrbyRingBuffer> = Vec::new();
        let mut d: usize = 0;
        while d < ring_buffer_lane_count
            invariant
                d <= ring_buffer_lane_count,
                lanes@.len() == d,
                forall|e: int| 0 <= e < d ==> (#[trigger] lanes@[e]).buffer@.len() == capacity,
                forall|e: int, i: int|
                    0 <= e < d && 0 <= i < capacity ==> (#[trigger] lanes@[e].buffer@[i]).0 == 0,
            decreases ring_buffer_lane_count - d,
        {
            lanes.push(OrbyRingBuffer::new(capacity));
            d = d + 1;
        }
        let s = OrbyRingBufferSilo {
            name,
            lanes,
            cursor: 0,
            len: 0,
            capacity,
            ring_buffer_lane_count,
            compaction,
            logic_mode,
            storage_mode,
            aof_enabled,
            vault_path,
        };
        assert(s@.lanes =~~= s@.cleared().lanes);
        Ok(s)
    }

    /// Writes one cell.
    pub fn set_cell(&mut self, d: usize, i: usize, v: u128)
        requires
            old(self).wf(),
            d < old(self).ring_buffer_lane_count,
            i < old(self).capacity,
        ensures
            final(self).wf(),
            final(self)@ == (RingView {
                lanes: old(self)@.lanes.update(d as int, old(self)@.lanes[d as int].update(i as int, v)),
                ..old(self)@
            }),
            final(self).ring_buffer_lane_count == old(self).ring_buffer_lane_count,
            final(self).name == old(self).name,
            final(self).compaction == old(self).compaction,
            final(self).aof_enabled == old(self).aof_enabled,
            final(self).storage_mode == old(self).storage_mode,
            final(self).vault_path == old(self).vault_path,
            final(self).logic_mode == old(self).logic_mode,
    {
        self.lanes[d].buffer[i] = PulseCell(v);
        assert(self@.lanes =~~= old(self)@.lanes.update(d as int, old(self)@.lanes[d as int].update(i as int, v)));
    }

    /// Reads one cell.
    pub fn get_cell(&self, d: usize, i: usize) -> (r: u128)
        requires
            self.wf(),
            d < self.ring_buffer_lane_count,
            i < self.capacity,
        ensures
            r == self@.lanes[d as int][i as int],
    {
        self.lanes[d].buffer[i].0
    }
}


/// Opcode of an inserted row in the append-only log.
pub const AOF_OP_INSERT: u8 = 0x01;
/// Opcode of a purge by id.
pub const AOF_OP_PURGE: u8 = 0x02;
/// Opcode of an update by id.
pub const AOF_OP_UPDATE: u8 = 0x03;
/// Opcode of a truncate.
pub const AOF_OP_TRUNCATE: u8 = 0x04;
/// Opcode of a single-lane batch.
pub const AOF_OP_LANE_BATCH: u8 = 0x05;

/// One change made to a store, handed to the persistence layer.
#[derive(Debug, Clone)]
pub enum RingOperation {
    Insert { cursor: usize, row_count: usize, data: Vec<Vec<u128>> },
    Update { physical_index: usize, id: u128, new_data: Vec<u128>, logical_column: usize },
    Delete { physical_index: usize },
    Purge { physical_indices: Vec<usize>, id: u128, logical_column: usize },
    Truncate { new_rows: Vec<Vec<u128>> },
    LaneBatch { lane_idx: usize, start_cursor: usize, values: Vec<u128> },
    HeaderUpdate { len: usize, cursor: usize },
}

/// The contents of a `RingOperation`, with its vectors seen as sequences.
pub enum OpView {
    Insert { cursor: int, row_count: int, rows: Seq<Seq<u128>> },
    Update { physical_index: int, id: u128, row: Seq<u128>, column: int },
    Delete { physical_index: int },
    Purge { physical_indices: Seq<usize>, id: u128, column: int },
    Truncate { rows: Seq<Seq<u128>> },
    LaneBatch { lane: int, start: int, values: Seq<u128> },
    HeaderUpdate { len: int, cursor: int },
}

/// A list of rows seen as sequences.
pub open spec fn rows_view(rows: Seq<Vec<u128>>) -> Seq<Seq<u128>> {
    rows.map_values(|r: Vec<u128>| r@)
}

impl View for RingOperation {
    type V = OpView;

    open spec fn view(&self) -> OpView {
        match self {
            RingOperation::Insert { cursor, row_count, data } => OpView::Insert {
                cursor: *cursor as int,
                row_count: *row_count as int,
                rows: rows_view(data@),
            },
            RingOperation::Update { physical_index, id, new_data, logical_column } => OpView::Update {
                physical_index: *physical_index as int,
                id: *id,
                row: new_data@,
                column: *logical_column as int,
            },
            RingOperation::Delete { physical_index } => OpView::Delete {
                physical_index: *physical_index as int,
            },
            RingOperation::Purge { physical_indices, id, logical_column } => OpView::Purge {
                physical_indices: physical_indices@,
                id: *id,
                column: *logical_column as int,
            },
            RingOperation::Truncate { new_rows } => OpView::Truncate { rows: rows_view(new_rows@) },
            RingOperation::LaneBatch { lane_idx, start_cursor, values } => OpView::LaneBatch {
                lane: *lane_idx as int,
                start: *start_cursor as int,
                values: values@,
            },
            RingOperation::HeaderUpdate { len, cursor } => OpView::HeaderUpdate {
                len: *len as int,
                cursor: *cursor as int,
            },
        }
    }
}

/// The ordered change list that one mutation produces.
pub struct PersistenceChanges {
    pub ops: Vec<RingOperation>,
}

impl View for PersistenceChanges {
    type V = Seq<OpView>;

    open spec fn view(&self) -> Seq<OpView> {
        self.ops@.map_values(|o: RingOperation| o@)
    }
}

impl PersistenceChanges {
    /// An empty change list.
    pub fn new() -> (r: Self)
        ensures
            r@ == Seq::<OpView>::empty(),
    {
        let r = PersistenceChanges { ops: Vec::new() };
        assert(r@ =~= Seq::<OpView>::empty());
        r
    }

    /// Appends one change.
    pub fn push(&mut self, op: RingOperation)
        ensures
            final(self)@ == old(self)@.push(op@),
    {
        self.ops.push(op);
        assert(self@ =~= old(self)@.push(op@));
    }

    /// Whether no change was recorded.
    pub fn is_empty(&self) -> (r: bool)
        ensures
            r == (self@.len() == 0),
    {
        self.ops.len() == 0
    }
}

/// A copy of a row.
pub fn copy_row(row: &Vec<u128>) -> (r: Vec<u128>)
    ensures
        r@ == row@,
{
    let mut out: Vec<u128> = Vec::new();
    let mut i: usize = 0;
    while i < row.len()
        invariant
            i <= row@.len(),
            out@ == row@.take(i as int),
        decreases row@.len() - i,
    {
        out.push(row[i]);
        i = i + 1;
        assert(out@ =~= row@.take(i as int));
    }
    assert(row@.take(row@.len() as int) =~= row@);
    out
}

} // verus!
