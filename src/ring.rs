use vstd::prelude::*;

use crate::error::OrbyError;
use crate::row::PulseCellPack;
use crate::logic::{
    copy_row, row_is_zero, rows_view, OpView, OrbyRingBufferSilo, PersistenceChanges,
    RingOperation, RingView,
};

verus! {

/// Whether every row has exactly `d` cells.
pub open spec fn rows_fit(rows: Seq<Seq<u128>>, d: int) -> bool {
    forall|i: int| 0 <= i < rows.len() ==> (#[trigger] rows[i]).len() == d
}

/// The error for a row of `found` cells in a store of `expected` lanes.
pub open spec fn is_lane_mismatch(e: OrbyError, expected: int, found: int) -> bool {
    e matches OrbyError::LaneCountMismatch { expected: x, found: y, .. } && x == expected && y == found
}

/// Whether `found` is the length of the first row in `rows` that does not have `d` cells.
pub open spec fn first_misfit(rows: Seq<Seq<u128>>, d: int, found: int) -> bool {
    exists|i: int|
        0 <= i < rows.len() && rows[i].len() == found && found != d && rows_fit(rows.take(i), d)
}

/// Everything of a store but its cells, cursor and count is kept.
pub open spec fn same_config(a: &OrbyRingBufferSilo, b: &OrbyRingBufferSilo) -> bool {
    &&& a.name == b.name
    &&& a.capacity == b.capacity
    &&& a.ring_buffer_lane_count == b.ring_buffer_lane_count
    &&& a.compaction == b.compaction
    &&& a.logic_mode == b.logic_mode
    &&& a.storage_mode == b.storage_mode
    &&& a.aof_enabled == b.aof_enabled
    &&& a.vault_path == b.vault_path
}

/// Writes `row` into physical slot `i`, one cell per lane.
fn write_row(store: &mut OrbyRingBufferSilo, i: usize, row: &Vec<u128>)
    requires
        old(store).wf(),
        i < old(store).capacity,
        row@.len() == old(store).ring_buffer_lane_count,
    ensures
        final(store).wf(),
        same_config(final(store), old(store)),
        final(store)@ == (RingView { lanes: old(store)@.lanes_with_row(i as int, row@), ..old(store)@ }),
{
    let ghost s0 = store@;
    let dim = store.ring_buffer_lane_count;
    let mut col: usize = 0;
    while col < dim
        invariant
            store.wf(),
            same_config(store, old(store)),
            dim == store.ring_buffer_lane_count,
            row@.len() == dim,
            i < store.capacity,
            col <= dim,
            store@.cursor == s0.cursor,
            store@.len == s0.len,
            store@.capacity == s0.capacity,
            store@.lanes.len() == s0.lanes.len(),
            forall|e: int, j: int|
                0 <= e < dim && 0 <= j < s0.capacity ==> #[trigger] store@.lanes[e][j] == if j == i && e
                    < col {
                    row@[e]
                } else {
                    s0.lanes[e][j]
                },
        decreases dim - col,
    {
        store.set_cell(col, i, row[col]);
        col = col + 1;
    }
    assert(store@.lanes =~~= s0.lanes_with_row(i as int, row@));
}

/// Zeroes physical slot `i` in every lane.
fn zero_row(store: &mut OrbyRingBufferSilo, i: usize)
    requires
        old(store).wf(),
        i < old(store).capacity,
    ensures
        final(store).wf(),
        same_config(final(store), old(store)),
        final(store)@ == (RingView {
            lanes: Seq::new(old(store)@.lanes.len(), |d: int| old(store)@.lanes[d].update(i as int, 0)),
            ..old(store)@
        }),
{
    let ghost s0 = store@;
    let dim = store.ring_buffer_lane_count;
    let mut col: usize = 0;
    while col < dim
        invariant
            store.wf(),
            same_config(store, old(store)),
            dim == store.ring_buffer_lane_count,
            i < store.capacity,
            col <= dim,
            store@.cursor == s0.cursor,
            store@.len == s0.len,
            store@.capacity == s0.capacity,
            store@.lanes.len() == s0.lanes.len(),
            forall|e: int, j: int|
                0 <= e < dim && 0 <= j < s0.capacity ==> #[trigger] store@.lanes[e][j] == if j == i && e
                    < col {
                    0
                } else {
                    s0.lanes[e][j]
                },
        decreases dim - col,
    {
        store.set_cell(col, i, 0);
        col = col + 1;
    }
    assert(store@.lanes =~~= Seq::new(s0.lanes.len(), |d: int| s0.lanes[d].update(i as int, 0)));
}

/// Reads the row at physical slot `i`.
fn read_row(store: &OrbyRingBufferSilo, i: usize) -> (r: Vec<u128>)
    requires
        store.wf(),
        i < store.capacity,
    ensures
        r@ == store@.row(i as int),
{
    let dim = store.ring_buffer_lane_count;
    let mut out: Vec<u128> = Vec::new();
    let mut col: usize = 0;
    while col < dim
        invariant
            store.wf(),
            dim == store.ring_buffer_lane_count,
            i < store.capacity,
            col <= dim,
            out@.len() == col,
            forall|e: int| 0 <= e < col ==> #[trigger] out@[e] == store@.lanes[e][i as int],
        decreases dim - col,
    {
        out.push(store.get_cell(col, i));
        col = col + 1;
    }
    assert(out@ =~= store@.row(i as int));
    out
}

/// Whether every cell of the row is zero.
fn row_all_zero(row: &Vec<u128>) -> (r: bool)
    ensures
        r == row_is_zero(row@),
{
    let mut i: usize = 0;
    while i < row.len()
        invariant
            i <= row@.len(),
            forall|d: int| 0 <= d < i ==> row@[d] == 0,
        decreases row@.len() - i,
    {
        if row[i] != 0 {
            return false;
        }
        i = i + 1;
    }
    true
}

/// Inserts one row at the cursor.
fn insert_one(store: &mut OrbyRingBufferSilo, row: &Vec<u128>)
    requires
        old(store).wf(),
        row@.len() == old(store).ring_buffer_lane_count,
    ensures
        final(store).wf(),
        same_config(final(store), old(store)),
        final(store)@ == old(store)@.insert_row(row@),
{
    let i = store.cursor;
    let overwrite = store.get_cell(0, i) != 0;
    write_row(store, i, row);
    if !overwrite && store.len < store.capacity {
        store.len = store.len + 1;
    }
    store.cursor = if i + 1 < store.capacity {
        i + 1
    } else {
        0
    };
}

/// Checks that every row of `rows[0..n]` has `dim` cells; returns the length
/// of the first one that does not.
fn check_rows(rows: &Vec<Vec<u128>>, n: usize, dim: usize) -> (r: Option<usize>)
    requires
        n <= rows@.len(),
    ensures
        r is None <==> rows_fit(rows_view(rows@).take(n as int), dim as int),
        r matches Some(found) ==> first_misfit(rows_view(rows@).take(n as int), dim as int, found as int),
{
    let ghost rv = rows_view(rows@).take(n as int);
    let mut i: usize = 0;
    while i < n
        invariant
            i <= n,
            n <= rows@.len(),
            rv == rows_view(rows@).take(n as int),
            rows_fit(rv.take(i as int), dim as int),
        decreases n - i,
    {
        if rows[i].len() != dim {
            assert(rv[i as int] == rows@[i as int]@);
            return Some(rows[i].len());
        }
        assert(rv.take(i as int + 1) =~= rv.take(i as int).push(rv[i as int]));
        i = i + 1;
    }
    assert(rv.take(n as int) =~= rv);
    None
}

/// Builds the lane-count error of this store.
fn lane_mismatch(store: &OrbyRingBufferSilo, found: usize) -> (e: OrbyError)
    ensures
        is_lane_mismatch(e, store.ring_buffer_lane_count as int, found as int),
{
    OrbyError::LaneCountMismatch {
        pool_name: store.name.clone(),
        expected: store.ring_buffer_lane_count,
        found,
    }
}

/// Inserts rows at the cursor, oldest first, overwriting the oldest slots once
/// the ring is full. Every row must have one cell per lane; otherwise nothing
/// changes and the length of the first misfit row is reported.
pub fn insert_batch(
    store: &mut OrbyRingBufferSilo,
    items: Vec<Vec<u128>>,
    changes: &mut PersistenceChanges,
) -> (r: Result<(), OrbyError>)
    requires
        old(store).wf(),
    ensures
        final(store).wf(),
        same_config(final(store), old(store)),
        r is Ok <==> rows_fit(rows_view(items@), old(store).ring_buffer_lane_count as int),
        r matches Err(e) ==> {
            &&& final(store)@ == old(store)@
            &&& final(changes)@ == old(changes)@
            &&& exists|found: int|
                is_lane_mismatch(e, old(store).ring_buffer_lane_count as int, found) && first_misfit(
                    rows_view(items@),
                    old(store).ring_buffer_lane_count as int,
                    found,
                )
        },
        r is Ok ==> final(store)@ == old(store)@.insert_rows(rows_view(items@)),
        r is Ok && items@.len() == 0 ==> final(changes)@ == old(changes)@,
        r is Ok && items@.len() > 0 ==> final(changes)@ == old(changes)@.push(
            OpView::Insert {
                cursor: old(store).cursor as int,
                row_count: items@.len() as int,
                rows: rows_view(items@),
            },
        ).push(OpView::HeaderUpdate { len: final(store).len as int, cursor: final(store).cursor as int }),
{
    let n = items.len();
    let dim = store.ring_buffer_lane_count;
    match check_rows(&items, n, dim) {
        Some(found) => {
            assert(rows_view(items@).take(n as int) =~= rows_view(items@));
            return Err(lane_mismatch(store, found));
        },
        None => {},
    }
    assert(rows_view(items@).take(n as int) =~= rows_view(items@));
    if n == 0 {
        return Ok(());
    }
    let ghost s0 = store@;
    let ghost rv = rows_view(items@);
    let start = store.cursor;
    let mut k: usize = 0;
    while k < n
        invariant
            store.wf(),
            same_config(store, old(store)),
            dim == store.ring_buffer_lane_count,
            n == items@.len(),
            rv == rows_view(items@),
            rows_fit(rv, dim as int),
            k <= n,
            store@ == s0.insert_rows(rv.take(k as int)),
        decreases n - k,
    {
        assert(rv[k as int] == items@[k as int]@);
        insert_one(store, &items[k]);
        assert(rv.take(k as int + 1).drop_last() =~= rv.take(k as int));
        k = k + 1;
    }
    assert(rv.take(n as int) =~= rv);
    let len = store.len;
    let cursor = store.cursor;
    changes.push(RingOperation::Insert { cursor: start, row_count: n, data: items });
    changes.push(RingOperation::HeaderUpdate { len, cursor });
    Ok(())
}


/// Writes `values` into lane `lane_idx` from the cursor on, wrapping at the end
/// of the ring, and zeroes the same slots in every other lane. The count grows
/// by the number of values, up to the capacity, and the cursor moves past them.
pub fn insert_lane_batch(
    store: &mut OrbyRingBufferSilo,
    lane_idx: usize,
    values: &Vec<u128>,
    changes: &mut PersistenceChanges,
) -> (r: Result<(), OrbyError>)
    requires
        old(store).wf(),
    ensures
        final(store).wf(),
        same_config(final(store), old(store)),
        r is Ok <==> lane_idx < old(store).ring_buffer_lane_count && values@.len() <= old(store).capacity,
        lane_idx >= old(store).ring_buffer_lane_count ==> (r matches Err(e) && is_lane_mismatch(
            e,
            old(store).ring_buffer_lane_count as int,
            if lane_idx < usize::MAX { lane_idx + 1 } else { lane_idx as int },
        )),
        lane_idx < old(store).ring_buffer_lane_count && values@.len() > old(store).capacity ==> (r
            matches Err(OrbyError::StorageFull { capacity, .. }) && capacity == old(store).capacity),
        r is Err ==> final(store)@ == old(store)@ && final(changes)@ == old(changes)@,
        r is Ok ==> final(store)@ == old(store)@.lane_batch(lane_idx as int, values@),
        r is Ok && values@.len() == 0 ==> final(changes)@ == old(changes)@,
        r is Ok && values@.len() > 0 ==> final(changes)@ == old(changes)@.push(
            OpView::LaneBatch { lane: lane_idx as int, start: old(store).cursor as int, values: values@ },
        ).push(OpView::HeaderUpdate { len: final(store).len as int, cursor: final(store).cursor as int }),
{
    let dim = store.ring_buffer_lane_count;
    let cap = store.capacity;
    let count = values.len();
    if lane_idx >= dim {
        let found = if lane_idx < usize::MAX {
            lane_idx + 1
        } else {
            lane_idx
        };
        return Err(lane_mismatch(store, found));
    }
    if count > cap {
        return Err(OrbyError::StorageFull { pool_name: store.name.clone(), capacity: cap });
    }
    let ghost s0 = store@;
    let start = store.cursor;
    let mut t: usize = 0;
    while t < count
        invariant
            store.wf(),
            same_config(store, old(store)),
            dim == store.ring_buffer_lane_count,
            cap == store.capacity,
            count == values@.len(),
            count <= cap,
            lane_idx < dim,
            start == s0.cursor,
            t <= count,
            store@.cursor == s0.cursor,
            store@.len == s0.len,
            store@.capacity == s0.capacity,
            store@.lanes.len() == s0.lanes.len(),
            forall|e: int, j: int|
                0 <= e < dim && 0 <= j < cap ==> #[trigger] store@.lanes[e][j] == if crate::logic::ring_offset(
                    j,
                    start as int,
                    cap as int,
                ) < t {
                    if e == lane_idx {
                        values@[crate::logic::ring_offset(j, start as int, cap as int)]
                    } else {
                        0
                    }
                } else {
                    s0.lanes[e][j]
                },
        decreases count - t,
    {
        let pos = if t < cap - start {
            start + t
        } else {
            t - (cap - start)
        };
        let ghost before = store@;
        let mut col: usize = 0;
        while col < dim
            invariant
                store.wf(),
                same_config(store, old(store)),
                dim == store.ring_buffer_lane_count,
                cap == store.capacity,
                pos < cap,
                t < count,
                count == values@.len(),
                col <= dim,
                store@.cursor == before.cursor,
                store@.len == before.len,
                store@.capacity == before.capacity,
                store@.lanes.len() == before.lanes.len(),
                forall|e: int, j: int|
                    0 <= e < dim && 0 <= j < cap ==> #[trigger] store@.lanes[e][j] == if j == pos && e
                        < col {
                        if e == lane_idx {
                            values@[t as int]
                        } else {
                            0
                        }
                    } else {
                        before.lanes[e][j]
                    },
            decreases dim - col,
        {
            let v: u128 = if col == lane_idx {
                values[t]
            } else {
                0
            };
            store.set_cell(col, pos, v);
            col = col + 1;
        }
        t = t + 1;
    }
    store.len = if count < cap - store.len {
        store.len + count
    } else {
        cap
    };
    store.cursor = if count < cap - start {
        start + count
    } else {
        count - (cap - start)
    };
    assert(store@.lanes =~~= s0.lane_batch(lane_idx as int, values@).lanes);
    if count > 0 {
        let len = store.len;
        let cursor = store.cursor;
        changes.push(
            RingOperation::LaneBatch {
                lane_idx,
                start_cursor: start,
                values: copy_row(values),
            },
        );
        changes.push(RingOperation::HeaderUpdate { len, cursor });
    }
    Ok(())
}

/// The update events for the slots below `n` that hold `id` in lane `lane`.
pub open spec fn update_events(s: RingView, lane: int, id: u128, row: Seq<u128>, n: int) -> Seq<OpView>
    decreases n,
{
    if n <= 0 {
        Seq::empty()
    } else if s.lanes[lane][n - 1] == id {
        update_events(s, lane, id, row, n - 1).push(
            OpView::Update { physical_index: n - 1, id, row, column: lane },
        )
    } else {
        update_events(s, lane, id, row, n - 1)
    }
}

proof fn lemma_no_update_events(s: RingView, lane: int, id: u128, row: Seq<u128>, n: int)
    requires
        forall|j: int| 0 <= j < n ==> s.lanes[lane][j] != id,
    ensures
        update_events(s, lane, id, row, n) == Seq::<OpView>::empty(),
    decreases n,
{
    if n > 0 {
        lemma_no_update_events(s, lane, id, row, n - 1);
    }
}

/// Whether an update by id is carried out at all: a non-zero id, a row of one
/// cell per lane, and an existing lane.
pub open spec fn update_applies(store: &OrbyRingBufferSilo, index: usize, id: u128, new_data: Seq<u128>) -> bool {
    id != 0 && new_data.len() == store.ring_buffer_lane_count && index < store.ring_buffer_lane_count
}

/// Overwrites, in place, every row whose cell in lane `index` equals `id`.
/// Returns whether any row matched. One update event per matching slot, then a
/// header event when some slot matched.
pub fn update_by_id(
    store: &mut OrbyRingBufferSilo,
    index: usize,
    id: u128,
    new_data: &Vec<u128>,
    changes: &mut PersistenceChanges,
) -> (r: bool)
    requires
        old(store).wf(),
    ensures
        final(store).wf(),
        same_config(final(store), old(store)),
        r == (update_applies(old(store), index, id, new_data@) && old(store)@.has_match(index as int, id)),
        !r ==> final(store)@ == old(store)@ && final(changes)@ == old(changes)@,
        r ==> final(store)@ == old(store)@.update_matching(index as int, id, new_data@),
        r ==> final(changes)@ == old(changes)@ + update_events(
            old(store)@,
            index as int,
            id,
            new_data@,
            old(store).capacity as int,
        ).push(OpView::HeaderUpdate { len: old(store).len as int, cursor: old(store).cursor as int }),
{
    if id == 0 || new_data.len() != store.ring_buffer_lane_count || index >= store.ring_buffer_lane_count {
        return false;
    }
    let ghost s0 = store@;
    let ghost c0 = changes@;
    let cap = store.capacity;
    let dim = store.ring_buffer_lane_count;
    let mut found_any = false;
    let mut i: usize = 0;
    while i < cap
        invariant
            store.wf(),
            same_config(store, old(store)),
            cap == store.capacity,
            dim == store.ring_buffer_lane_count,
            index < dim,
            new_data@.len() == dim,
            i <= cap,
            store@.cursor == s0.cursor,
            store@.len == s0.len,
            store@.capacity == s0.capacity,
            store@.lanes.len() == s0.lanes.len(),
            forall|e: int, j: int|
                0 <= e < dim && 0 <= j < cap ==> #[trigger] store@.lanes[e][j] == if j < i
                    && s0.lanes[index as int][j] == id {
                    new_data@[e]
                } else {
                    s0.lanes[e][j]
                },
            found_any == exists|j: int| 0 <= j < i && s0.lanes[index as int][j] == id,
            changes@ == c0 + update_events(s0, index as int, id, new_data@, i as int),
        decreases cap - i,
    {
        if store.get_cell(index, i) == id {
            write_row(store, i, new_data);
            changes.push(
                RingOperation::Update {
                    physical_index: i,
                    id,
                    new_data: copy_row(new_data),
                    logical_column: index,
                },
            );
            found_any = true;
        }
        i = i + 1;
        assert(changes@ =~= c0 + update_events(s0, index as int, id, new_data@, i as int));
    }
    if found_any {
        assert(store@.lanes =~~= s0.update_matching(index as int, id, new_data@).lanes);
        let len = store.len;
        let cursor = store.cursor;
        changes.push(RingOperation::HeaderUpdate { len, cursor });
        assert(changes@ =~= c0 + update_events(s0, index as int, id, new_data@, cap as int).push(
            OpView::HeaderUpdate { len: s0.len, cursor: s0.cursor },
        ));
    } else {
        assert(store@.lanes =~~= s0.lanes);
        proof {
            lemma_no_update_events(s0, index as int, id, new_data@, cap as int);
        }
        assert(changes@ =~= c0);
    }
    found_any
}

/// Updates the rows that hold `id` in lane `index`; when none is updated, inserts
/// `data` as a new row instead.
pub fn upsert(
    store: &mut OrbyRingBufferSilo,
    index: usize,
    id: u128,
    data: &Vec<u128>,
    changes: &mut PersistenceChanges,
) -> (r: Result<(), OrbyError>)
    requires
        old(store).wf(),
    ensures
        final(store).wf(),
        same_config(final(store), old(store)),
        r is Ok <==> data@.len() == old(store).ring_buffer_lane_count,
        r matches Err(e) ==> is_lane_mismatch(e, old(store).ring_buffer_lane_count as int, data@.len() as int)
            && final(store)@ == old(store)@,
        r is Ok && update_applies(old(store), index, id, data@) && old(store)@.has_match(index as int, id)
            ==> final(store)@ == old(store)@.update_matching(index as int, id, data@),
        r is Ok && !(update_applies(old(store), index, id, data@) && old(store)@.has_match(index as int, id))
            ==> final(store)@ == old(store)@.insert_row(data@),
        r is Err ==> final(changes)@ == old(changes)@,
        r is Ok && update_applies(old(store), index, id, data@) && old(store)@.has_match(index as int, id)
            ==> final(changes)@ == old(changes)@ + update_events(
            old(store)@,
            index as int,
            id,
            data@,
            old(store).capacity as int,
        ).push(OpView::HeaderUpdate { len: old(store).len as int, cursor: old(store).cursor as int }),
        r is Ok && !(update_applies(old(store), index, id, data@) && old(store)@.has_match(index as int, id))
            ==> final(changes)@ == old(changes)@.push(
            OpView::Insert { cursor: old(store).cursor as int, row_count: 1, rows: seq![data@] },
        ).push(OpView::HeaderUpdate { len: final(store).len as int, cursor: final(store).cursor as int }),
{
    if !update_by_id(store, index, id, data, changes) {
        let mut rows: Vec<Vec<u128>> = Vec::new();
        rows.push(copy_row(data));
        let ghost s1 = store@;
        let res = insert_batch(store, rows, changes);
        proof {
            let rv = rows_view(rows@);
            assert(rv =~= seq![data@]);
            assert(rv.drop_last() =~= Seq::<Seq<u128>>::empty());
            assert(s1.insert_rows(rv) == s1.insert_rows(rv.drop_last()).insert_row(data@));
        }
        match res {
            Ok(()) => {},
            Err(e) => {
                proof {
                    assert(rows_view(rows@)[0] == data@);
                }
                return Err(e);
            },
        }
        if data.len() != store.ring_buffer_lane_count {
            assert(!rows_fit(rows_view(rows@), store.ring_buffer_lane_count as int));
        }
    }
    Ok(())
}

/// The slots below `n` whose cell in lane `lane` equals `id`, in increasing order.
pub open spec fn matching_slots(s: RingView, lane: int, id: u128, n: int) -> Seq<usize>
    decreases n,
{
    if n <= 0 {
        Seq::empty()
    } else if s.lanes[lane][n - 1] == id {
        matching_slots(s, lane, id, n - 1).push((n - 1) as usize)
    } else {
        matching_slots(s, lane, id, n - 1)
    }
}

/// Zeroes, in place, every row whose cell in lane `index` equals `id` (a
/// non-zero id in an existing lane), lowering the count once per row. No
/// compaction. Records a purge event with the slots, then a header event.
pub fn purge_by_id(
    store: &mut OrbyRingBufferSilo,
    index: usize,
    id: u128,
    changes: &mut PersistenceChanges,
)
    requires
        old(store).wf(),
    ensures
        final(store).wf(),
        same_config(final(store), old(store)),
        id == 0 || index >= old(store).ring_buffer_lane_count ==> final(store)@ == old(store)@
            && final(changes)@ == old(changes)@,
        id != 0 && index < old(store).ring_buffer_lane_count ==> {
            &&& final(store)@ == old(store)@.purge_matching(index as int, id)
            &&& final(changes)@ == old(changes)@.push(
                OpView::Purge {
                    physical_indices: matching_slots(old(store)@, index as int, id, old(store).capacity as int),
                    id,
                    column: index as int,
                },
            ).push(OpView::HeaderUpdate { len: final(store).len as int, cursor: final(store).cursor as int })
        },
{
    if id == 0 || index >= store.ring_buffer_lane_count {
        return;
    }
    let ghost s0 = store@;
    let cap = store.capacity;
    let dim = store.ring_buffer_lane_count;
    let mut targets: Vec<usize> = Vec::new();
    let mut i: usize = 0;
    while i < cap
        invariant
            store.wf(),
            same_config(store, old(store)),
            cap == store.capacity,
            dim == store.ring_buffer_lane_count,
            index < dim,
            i <= cap,
            store@.cursor == s0.cursor,
            store@.capacity == s0.capacity,
            store@.lanes.len() == s0.lanes.len(),
            store@.len == if s0.len >= s0.count_matches(index as int, id, i as int) {
                s0.len - s0.count_matches(index as int, id, i as int)
            } else {
                0
            },
            forall|e: int, j: int|
                0 <= e < dim && 0 <= j < cap ==> #[trigger] store@.lanes[e][j] == if j < i
                    && s0.lanes[index as int][j] == id {
                    0
                } else {
                    s0.lanes[e][j]
                },
            targets@ == matching_slots(s0, index as int, id, i as int),
        decreases cap - i,
    {
        if store.get_cell(index, i) == id {
            zero_row(store, i);
            if store.len > 0 {
                store.len = store.len - 1;
            }
            targets.push(i);
        }
        i = i + 1;
    }
    assert(store@.lanes =~~= s0.purge_matching(index as int, id).lanes);
    let len = store.len;
    let cursor = store.cursor;
    changes.push(RingOperation::Purge { physical_indices: targets, id, logical_column: index });
    changes.push(RingOperation::HeaderUpdate { len, cursor });
}

/// Deletes the row at physical slot `index` when that slot lies in the ring and
/// the row is not all zeros: the row is zeroed and the count lowered by one.
/// With compaction on, later slots also move one step down and the cursor is
/// set to the new count. Returns whether a row was deleted.
pub fn delete(store: &mut OrbyRingBufferSilo, index: usize, changes: &mut PersistenceChanges) -> (r: bool)
    requires
        old(store).wf(),
    ensures
        final(store).wf(),
        same_config(final(store), old(store)),
        r == (index < old(store).capacity && !row_is_zero(old(store)@.row(index as int))),
        !r ==> final(store)@ == old(store)@ && final(changes)@ == old(changes)@,
        r ==> final(store)@ == old(store)@.delete_at(index as int, old(store).compaction),
        r ==> final(changes)@ == old(changes)@.push(OpView::Delete { physical_index: index as int }).push(
            OpView::HeaderUpdate { len: final(store).len as int, cursor: final(store).cursor as int },
        ),
{
    if index >= store.capacity {
        return false;
    }
    let row = read_row(store, index);
    if row_all_zero(&row) {
        return false;
    }
    let ghost s0 = store@;
    zero_row(store, index);
    if store.len > 0 {
        store.len = store.len - 1;
    }
    if store.compaction {
        let cap = store.capacity;
        let dim = store.ring_buffer_lane_count;
        let ghost s1 = store@;
        let mut col: usize = 0;
        while col < dim
            invariant
                store.wf(),
                same_config(store, old(store)),
                cap == store.capacity,
                dim == store.ring_buffer_lane_count,
                index < cap,
                col <= dim,
                store@.cursor == s1.cursor,
                store@.len == s1.len,
                store@.capacity == s1.capacity,
                store@.lanes.len() == s1.lanes.len(),
                forall|e: int, j: int|
                    0 <= e < dim && 0 <= j < cap ==> #[trigger] store@.lanes[e][j] == if e < col {
                        if j < index {
                            s1.lanes[e][j]
                        } else if j + 1 < cap {
                            s1.lanes[e][j + 1]
                        } else {
                            0
                        }
                    } else {
                        s1.lanes[e][j]
                    },
            decreases dim - col,
        {
            let ghost before = store@;
            let mut j: usize = index;
            while j + 1 < cap
                invariant
                    store.wf(),
                    same_config(store, old(store)),
                    cap == store.capacity,
                    dim == store.ring_buffer_lane_count,
                    col < dim,
                    index <= j < cap,
                    store@.cursor == before.cursor,
                    store@.len == before.len,
                    store@.capacity == before.capacity,
                    store@.lanes.len() == before.lanes.len(),
                    forall|e: int, k: int|
                        0 <= e < dim && 0 <= k < cap ==> #[trigger] store@.lanes[e][k] == if e == col
                            && index <= k < j {
                            before.lanes[e][k + 1]
                        } else {
                            before.lanes[e][k]
                        },
                decreases cap - j,
            {
                let v = store.get_cell(col, j + 1);
                store.set_cell(col, j, v);
                j = j + 1;
            }
            store.set_cell(col, cap - 1, 0);
            col = col + 1;
        }
        store.cursor = store.len;
        assert(store@.lanes =~~= s0.delete_at(index as int, true).lanes);
    } else {
        assert(store@.lanes =~~= s0.delete_at(index as int, false).lanes);
    }
    let len = store.len;
    let cursor = store.cursor;
    changes.push(RingOperation::Delete { physical_index: index });
    changes.push(RingOperation::HeaderUpdate { len, cursor });
    true
}

/// Drops every row, resets cursor and count, then inserts the first `capacity`
/// of `items` (each must have one cell per lane; otherwise nothing changes).
pub fn truncate(
    store: &mut OrbyRingBufferSilo,
    items: Vec<Vec<u128>>,
    changes: &mut PersistenceChanges,
) -> (r: Result<(), OrbyError>)
    requires
        old(store).wf(),
    ensures
        final(store).wf(),
        same_config(final(store), old(store)),
        r is Ok <==> rows_fit(
            rows_view(items@).take(kept_count(items@.len() as int, old(store).capacity as int)),
            old(store).ring_buffer_lane_count as int,
        ),
        r matches Err(e) ==> {
            &&& final(store)@ == old(store)@
            &&& final(changes)@ == old(changes)@
            &&& exists|found: int|
                is_lane_mismatch(e, old(store).ring_buffer_lane_count as int, found) && first_misfit(
                    rows_view(items@).take(kept_count(items@.len() as int, old(store).capacity as int)),
                    old(store).ring_buffer_lane_count as int,
                    found,
                )
        },
        r is Ok ==> final(store)@ == old(store)@.truncate_with(rows_view(items@)),
        r is Ok ==> final(changes)@ == old(changes)@.push(
            OpView::Truncate {
                rows: rows_view(items@).take(kept_count(items@.len() as int, old(store).capacity as int)),
            },
        ).push(OpView::HeaderUpdate { len: final(store).len as int, cursor: final(store).cursor as int }),
{
    let cap = store.capacity;
    let dim = store.ring_buffer_lane_count;
    let n = if items.len() <= cap {
        items.len()
    } else {
        cap
    };
    match check_rows(&items, n, dim) {
        Some(found) => {
            return Err(lane_mismatch(store, found));
        },
        None => {},
    }
    let ghost s0 = store@;
    let mut col: usize = 0;
    while col < dim
        invariant
            store.wf(),
            same_config(store, old(store)),
            cap == store.capacity,
            dim == store.ring_buffer_lane_count,
            col <= dim,
            store@.cursor == s0.cursor,
            store@.len == s0.len,
            store@.capacity == s0.capacity,
            store@.lanes.len() == s0.lanes.len(),
            forall|e: int, j: int|
                0 <= e < dim && 0 <= j < cap ==> #[trigger] store@.lanes[e][j] == if e < col {
                    0
                } else {
                    s0.lanes[e][j]
                },
        decreases dim - col,
    {
        let mut j: usize = 0;
        let ghost before = store@;
        while j < cap
            invariant
                store.wf(),
                same_config(store, old(store)),
                cap == store.capacity,
                dim == store.ring_buffer_lane_count,
                col < dim,
                j <= cap,
                store@.cursor == before.cursor,
                store@.len == before.len,
                store@.capacity == before.capacity,
                store@.lanes.len() == before.lanes.len(),
                forall|e: int, k: int|
                    0 <= e < dim && 0 <= k < cap ==> #[trigger] store@.lanes[e][k] == if e == col && k < j {
                        0
                    } else {
                        before.lanes[e][k]
                    },
            decreases cap - j,
        {
            store.set_cell(col, j, 0);
            j = j + 1;
        }
        col = col + 1;
    }
    store.cursor = 0;
    store.len = 0;
    assert(store@.lanes =~~= s0.cleared().lanes);
    let ghost s1 = store@;
    let ghost rv = rows_view(items@).take(n as int);
    let mut k: usize = 0;
    while k < n
        invariant
            store.wf(),
            same_config(store, old(store)),
            dim == store.ring_buffer_lane_count,
            n <= items@.len(),
            rv == rows_view(items@).take(n as int),
            rows_fit(rv, dim as int),
            k <= n,
            store@ == s1.insert_rows(rv.take(k as int)),
        decreases n - k,
    {
        assert(rv[k as int] == items@[k as int]@);
        insert_one(store, &items[k]);
        assert(rv.take(k as int + 1).drop_last() =~= rv.take(k as int));
        k = k + 1;
    }
    assert(rv.take(n as int) =~= rv);
    let len = store.len;
    let cursor = store.cursor;
    let mut kept = items;
    kept.truncate(n);
    assert(rows_view(kept@) =~= rv);
    changes.push(RingOperation::Truncate { new_rows: kept });
    changes.push(RingOperation::HeaderUpdate { len, cursor });
    Ok(())
}

/// Fixed-width rows seen as sequences of raw values.
pub open spec fn packs_view<const N: usize>(items: Seq<PulseCellPack<N>>) -> Seq<Seq<u128>> {
    items.map_values(|p: PulseCellPack<N>| Seq::new(N as nat, |i: int| p.values@[i].0))
}

/// Inserts fixed-width rows, like `insert_batch`; the width must equal the lane count.
pub fn insert_fixed<const N: usize>(
    store: &mut OrbyRingBufferSilo,
    items: Vec<PulseCellPack<N>>,
    changes: &mut PersistenceChanges,
) -> (r: Result<(), OrbyError>)
    requires
        old(store).wf(),
    ensures
        final(store).wf(),
        same_config(final(store), old(store)),
        r is Ok <==> N == old(store).ring_buffer_lane_count,
        r matches Err(e) ==> is_lane_mismatch(e, old(store).ring_buffer_lane_count as int, N as int)
            && final(store)@ == old(store)@ && final(changes)@ == old(changes)@,
        r is Ok ==> final(store)@ == old(store)@.insert_rows(packs_view(items@)),
        r is Ok && items@.len() == 0 ==> final(changes)@ == old(changes)@,
        r is Ok && items@.len() > 0 ==> final(changes)@ == old(changes)@.push(
            OpView::Insert {
                cursor: old(store).cursor as int,
                row_count: items@.len() as int,
                rows: packs_view(items@),
            },
        ).push(OpView::HeaderUpdate { len: final(store).len as int, cursor: final(store).cursor as int }),
{
    if N != store.ring_buffer_lane_count {
        return Err(lane_mismatch(store, N));
    }
    let mut rows: Vec<Vec<u128>> = Vec::new();
    let mut k: usize = 0;
    while k < items.len()
        invariant
            k <= items@.len(),
            rows@.len() == k,
            forall|j: int| 0 <= j < k ==> (#[trigger] rows@[j])@ == packs_view(items@)[j],
        decreases items@.len() - k,
    {
        let row = items[k].to_vec();
        assert(row@ =~= packs_view(items@)[k as int]);
        rows.push(row);
        k = k + 1;
    }
    assert(rows_view(rows@) =~= packs_view(items@));
    insert_batch(store, rows, changes)
}

/// How many rows a truncate keeps: all of them, up to the capacity.
pub open spec fn kept_count(n: int, cap: int) -> int {
    if n <= cap {
        n
    } else {
        cap
    }
}

} // verus!
