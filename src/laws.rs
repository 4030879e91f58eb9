use vstd::prelude::*;

use crate::aof::{
    aof_records, cells_bytes, lemma_cells_bytes_len, lemma_cells_round_trip, op_records, RecView,
};
use crate::logic::{row_is_zero, OpView, RingView};
use crate::vault::{header_bytes, header_fits, header_of, lemma_header_round_trip, restored, VaultHeader};
use crate::replay::{apply_record, apply_records};
use crate::ring::rows_fit;
use crate::scan::{any_row, query_hits, scan_hits};

verus! {

/// A store that holds nothing yet: every cell zero, cursor and count at 0.
pub open spec fn is_empty_store(s: RingView) -> bool {
    &&& s.wf()
    &&& s.cursor == 0
    &&& s.len == 0
    &&& forall|d: int, i: int| 0 <= d < s.lanes.len() && 0 <= i < s.capacity ==> #[trigger] s.lanes[d][i] == 0
}

/// Rows of `d` cells, none of them all zeros.
pub open spec fn live_rows(rows: Seq<Seq<u128>>, d: int) -> bool {
    &&& rows_fit(rows, d)
    &&& forall|j: int| 0 <= j < rows.len() ==> !row_is_zero(#[trigger] rows[j])
}

/// Inserting one row writes it at the old cursor and moves the cursor one
/// step on, modulo the capacity. When the row's first cell is non-zero, that
/// slot of lane 0 is then non-zero.
proof fn lemma_insert_advances(s: RingView, row: Seq<u128>)
    requires
        s.wf(),
        row.len() == s.lanes.len(),
    ensures
        s.insert_row(row).wf(),
        s.insert_row(row).cursor == (s.cursor + 1) % s.capacity,
        forall|d: int| 0 <= d < s.lanes.len() ==> #[trigger] s.insert_row(row).lanes[d][s.cursor] == row[d],
        row[0] != 0 ==> s.insert_row(row).lanes[0][s.cursor] != 0,
{
    let t = s.insert_row(row);
    assert forall|d: int| 0 <= d < t.lanes.len() implies #[trigger] t.lanes[d].len() == t.capacity by {}
    if s.cursor + 1 < s.capacity {
        vstd::arithmetic::div_mod::lemma_small_mod((s.cursor + 1) as nat, s.capacity as nat);
    } else {
        vstd::arithmetic::div_mod::lemma_mod_self_0(s.capacity);
    }
}

proof fn lemma_fill(s: RingView, rows: Seq<Seq<u128>>, m: int)
    requires
        is_empty_store(s),
        live_rows(rows, s.lanes.len() as int),
        0 <= m <= rows.len(),
    ensures
        s.insert_rows(rows.take(m)).wf(),
        s.insert_rows(rows.take(m)).lanes.len() == s.lanes.len(),
        s.insert_rows(rows.take(m)).capacity == s.capacity,
        s.insert_rows(rows.take(m)).len == if m < s.capacity {
            m
        } else {
            s.capacity
        },
        m < s.capacity ==> s.insert_rows(rows.take(m)).cursor == m,
        m < s.capacity ==> forall|d: int, p: int|
            0 <= d < s.lanes.len() && m <= p < s.capacity ==> #[trigger] s.insert_rows(rows.take(m)).lanes[d][p]
                == 0,
        forall|k: int|
            0 <= k < s.insert_rows(rows.take(m)).len ==> #[trigger] s.insert_rows(rows.take(m)).logical_row(k)
                == rows[m - 1 - k],
    decreases m,
{
    let c = s.capacity;
    let dd = s.lanes.len() as int;
    if m == 0 {
        assert(rows.take(0) =~= Seq::<Seq<u128>>::empty());
    } else {
        lemma_fill(s, rows, m - 1);
        let t = s.insert_rows(rows.take(m - 1));
        let row = rows[m - 1];
        assert(rows.take(m).drop_last() =~= rows.take(m - 1));
        assert(rows.take(m).last() == row);
        let u = t.insert_row(row);
        assert(s.insert_rows(rows.take(m)) == u);
        assert(row.len() == dd);
        assert forall|d: int| 0 <= d < u.lanes.len() implies #[trigger] u.lanes[d].len() == u.capacity by {}
        let cur = t.cursor;
        // the slot written now was empty exactly while the ring was not yet full
        if m - 1 < c {
            assert(t.lanes[0][cur] == 0);
        }
        assert forall|k: int| 0 <= k < u.len implies #[trigger] u.logical_row(k) == rows[m - 1 - k] by {
            if k == 0 {
                assert(u.physical(0) == cur);
                assert(u.logical_row(0) =~= row);
            } else {
                assert(u.physical(k) == t.physical(k - 1));
                assert(u.physical(k) != cur);
                assert(t.logical_row(k - 1) == rows[m - 1 - 1 - (k - 1)]);
                assert(u.logical_row(k) =~= t.logical_row(k - 1));
            }
        }
    }
}

/// Every position of a full-length scan is kept when every logical row below
/// `n` is live.
proof fn lemma_all_hits(t: RingView, n: int)
    requires
        0 <= n,
        forall|k: int| 0 <= k < n ==> !row_is_zero(#[trigger] t.logical_row(k)),
    ensures
        scan_hits(t, any_row(), n) == Seq::new(n as nat, |i: int| i),
    decreases n,
{
    if n > 0 {
        lemma_all_hits(t, n - 1);
        assert(Seq::new((n - 1) as nat, |i: int| i).push(n - 1) =~= Seq::new(n as nat, |i: int| i));
    }
}

/// Wrap-around: starting from an empty store, after `capacity + k` inserts
/// (`k > 0`) of rows that are not all zeros, taking `capacity` rows gives
/// exactly the last `capacity` rows inserted, newest first.
pub proof fn lemma_wrap_around(s: RingView, rows: Seq<Seq<u128>>, k: int)
    requires
        is_empty_store(s),
        live_rows(rows, s.lanes.len() as int),
        k > 0,
        rows.len() == s.capacity + k,
    ensures
        query_hits(s.insert_rows(rows), any_row(), s.capacity).len() == s.capacity,
        forall|i: int|
            0 <= i < s.capacity ==> #[trigger] s.insert_rows(rows).logical_row(
                query_hits(s.insert_rows(rows), any_row(), s.capacity)[i],
            ) == rows[rows.len() - 1 - i],
{
    let m = rows.len() as int;
    lemma_fill(s, rows, m);
    assert(rows.take(m) =~= rows);
    let t = s.insert_rows(rows);
    assert(t.scan_len() == s.capacity);
    assert forall|j: int| 0 <= j < s.capacity implies !row_is_zero(#[trigger] t.logical_row(j)) by {
        assert(t.logical_row(j) == rows[m - 1 - j]);
    }
    lemma_all_hits(t, s.capacity);
}

/// The header a checkpoint of `s` writes.
pub open spec fn checkpoint_header(s: RingView) -> VaultHeader {
    VaultHeader {
        capacity: s.capacity as u64,
        len: s.len as u64,
        cursor: s.cursor as u64,
        lane_count: s.lanes.len() as u32,
    }
}

/// The lane files a checkpoint of `s` writes.
pub open spec fn checkpoint_files(s: RingView) -> Seq<Seq<u8>> {
    Seq::new(s.lanes.len(), |d: int| cells_bytes(s.lanes[d]))
}

/// Vault round trip: the files a checkpoint writes have `16 * capacity` bytes
/// each, their header reads back with the store's capacity, length, cursor and
/// lane count, and loading them into a store of the same configuration gives
/// back the checkpointed store exactly.
pub proof fn lemma_vault_round_trip(s: RingView, t: RingView)
    requires
        s.wf(),
        t.wf(),
        t.capacity == s.capacity,
        t.lanes.len() == s.lanes.len(),
        s.capacity <= u64::MAX,
        s.lanes.len() <= u32::MAX,
    ensures
        forall|d: int|
            0 <= d < s.lanes.len() ==> (#[trigger] checkpoint_files(s)[d]).len() == 16 * s.capacity,
        header_of(header_bytes(checkpoint_header(s))) == Some(checkpoint_header(s)),
        header_fits(checkpoint_header(s), s.capacity, s.lanes.len() as int),
        restored(t, checkpoint_header(s), checkpoint_files(s)) == s,
{
    let h = checkpoint_header(s);
    lemma_header_round_trip(h);
    let files = checkpoint_files(s);
    assert forall|d: int| 0 <= d < s.lanes.len() implies (#[trigger] files[d]).len() == 16 * s.capacity by {
        lemma_cells_bytes_len(s.lanes[d]);
    }
    let r = restored(t, h, files);
    assert forall|d: int| 0 <= d < s.lanes.len() implies #[trigger] r.lanes[d] == s.lanes[d] by {
        lemma_cells_round_trip(s.lanes[d]);
    }
    assert(r.lanes =~= s.lanes);
}

/// A scan returns positions in strictly increasing logical order: newest first.
pub proof fn lemma_query_latest_first(s: RingView, f: spec_fn(Seq<u128>) -> bool, limit: int)
    requires
        limit >= 0,
    ensures
        forall|a: int, b: int|
            0 <= a < b < query_hits(s, f, limit).len() ==> query_hits(s, f, limit)[a] < query_hits(
                s,
                f,
                limit,
            )[b],
{
    let h = scan_hits(s, f, s.scan_len());
    let q = query_hits(s, f, limit);
    crate::scan::lemma_scan_hits_ascending(s, f, s.scan_len());
    assert forall|a: int, b: int| 0 <= a < b < q.len() implies q[a] < q[b] by {
        assert(q[a] == h[a]);
        assert(q[b] == h[b]);
    }
}

/// Replaying two stretches of a log is replaying the first, then the second.
pub proof fn lemma_apply_records_append(s: RingView, a: Seq<RecView>, b: Seq<RecView>)
    ensures
        apply_records(s, a + b) == apply_records(apply_records(s, a), b),
    decreases b.len(),
{
    if b.len() == 0 {
        assert(a + b =~= a);
    } else {
        lemma_apply_records_append(s, a, b.drop_last());
        assert((a + b).drop_last() =~= a + b.drop_last());
        assert((a + b).last() == b.last());
    }
}

/// The records of two change lists are those of the first, then the second.
pub proof fn lemma_aof_records_append(x: Seq<OpView>, y: Seq<OpView>)
    ensures
        aof_records(x + y) == aof_records(x) + aof_records(y),
    decreases y.len(),
{
    if y.len() == 0 {
        assert(x + y =~= x);
        assert(aof_records(x) + aof_records(y) =~= aof_records(x));
    } else {
        lemma_aof_records_append(x, y.drop_last());
        assert((x + y).drop_last() =~= x + y.drop_last());
        assert((x + y).last() == y.last());
        assert(aof_records(x) + aof_records(y) =~= aof_records(x) + aof_records(y.drop_last())
            + op_records(y.last()));
    }
}

proof fn lemma_replay_rows(s: RingView, rows: Seq<Seq<u128>>)
    requires
        rows_fit(rows, s.lanes.len() as int),
    ensures
        apply_records(s, rows.map_values(|row: Seq<u128>| RecView::Insert { row })) == s.insert_rows(rows),
        s.insert_rows(rows).lanes.len() == s.lanes.len(),
    decreases rows.len(),
{
    let rs = rows.map_values(|row: Seq<u128>| RecView::Insert { row });
    if rows.len() > 0 {
        let p = rows.drop_last();
        lemma_replay_rows(s, p);
        assert(rs.drop_last() =~= p.map_values(|row: Seq<u128>| RecView::Insert { row }));
        assert(rs.last() == RecView::Insert { row: rows.last() });
        assert(rows.last() == rows[rows.len() - 1]);
    } else {
        assert(rs =~= Seq::<RecView>::empty());
    }
}

proof fn lemma_update_idempotent(s: RingView, lane: int, id: u128, row: Seq<u128>)
    requires
        s.wf(),
        0 <= lane < s.lanes.len(),
        row.len() == s.lanes.len(),
    ensures
        s.update_matching(lane, id, row).has_match(lane, id) ==> s.update_matching(lane, id, row).update_matching(
            lane,
            id,
            row,
        ) == s.update_matching(lane, id, row),
{
    let t = s.update_matching(lane, id, row);
    if t.has_match(lane, id) {
        let u = t.update_matching(lane, id, row);
        assert forall|d: int| 0 <= d < s.lanes.len() implies #[trigger] u.lanes[d] =~= t.lanes[d] by {
            assert forall|i: int| 0 <= i < s.capacity implies u.lanes[d][i] == t.lanes[d][i] by {
                if t.lanes[lane][i] == id {
                    assert(s.lanes[lane][i] == id);
                }
            }
        }
        assert(u.lanes =~= t.lanes);
    }
}

proof fn lemma_replay_update_copies(s: RingView, lane: int, id: u128, row: Seq<u128>, n: int)
    requires
        s.wf(),
        0 <= lane < s.lanes.len(),
        row.len() == s.lanes.len(),
        id != 0,
        0 <= n <= s.capacity,
        s.has_match(lane, id),
    ensures
        aof_records(crate::ring::update_events(s, lane, id, row, n)) == Seq::new(
            s.count_matches(lane, id, n) as nat,
            |i: int| RecView::Update { column: lane, id, row },
        ),
        s.count_matches(lane, id, n) >= 0,
    decreases n,
{
    let ev = crate::ring::update_events(s, lane, id, row, n);
    if n > 0 {
        lemma_replay_update_copies(s, lane, id, row, n - 1);
        let prev = crate::ring::update_events(s, lane, id, row, n - 1);
        if s.lanes[lane][n - 1] == id {
            assert(ev.drop_last() =~= prev);
            assert(aof_records(ev) =~= Seq::new(
                s.count_matches(lane, id, n) as nat,
                |i: int| RecView::Update { column: lane, id, row },
            ));
        }
    } else {
        assert(aof_records(ev) =~= Seq::new(
            s.count_matches(lane, id, n) as nat,
            |i: int| RecView::Update { column: lane, id, row },
        ));
    }
}

proof fn lemma_count_positive(s: RingView, lane: int, id: u128, n: int, i: int)
    requires
        0 <= i < n,
        s.lanes[lane][i] == id,
    ensures
        s.count_matches(lane, id, n) >= 1,
    decreases n,
{
    if i < n - 1 {
        lemma_count_positive(s, lane, id, n - 1, i);
        lemma_count_nonneg(s, lane, id, n - 1);
    } else {
        lemma_count_nonneg(s, lane, id, n - 1);
    }
}

proof fn lemma_count_nonneg(s: RingView, lane: int, id: u128, n: int)
    ensures
        s.count_matches(lane, id, n) >= 0,
    decreases n,
{
    if n > 0 {
        lemma_count_nonneg(s, lane, id, n - 1);
    }
}

proof fn lemma_replay_copies(t: RingView, lane: int, id: u128, row: Seq<u128>, k: int)
    requires
        t.wf(),
        0 <= lane < t.lanes.len(),
        row.len() == t.lanes.len(),
        id != 0,
        k >= 0,
        t.has_match(lane, id) ==> t.update_matching(lane, id, row) == t,
    ensures
        apply_records(t, Seq::new(k as nat, |i: int| RecView::Update { column: lane, id, row })) == t,
    decreases k,
{
    if k > 0 {
        lemma_replay_copies(t, lane, id, row, k - 1);
        let rs = Seq::new(k as nat, |i: int| RecView::Update { column: lane, id, row });
        assert(rs.drop_last() =~= Seq::new((k - 1) as nat, |i: int| RecView::Update { column: lane, id, row }));
    }
}

/// The rows a truncate keeps: all of them, up to the capacity.
pub open spec fn kept_rows(rows: Seq<Seq<u128>>, capacity: int) -> Seq<Seq<u128>> {
    rows.take(crate::ring::kept_count(rows.len() as int, capacity))
}

/// Log replay of the mutations the log records. For each of them, re-issuing
/// the records that its change list logs, on the state it started from, gives
/// the state it left (the change lists have the form the mutations' own
/// contracts state):
/// an insert of rows of one cell per lane; an update by id that matched
/// (one update event per matching slot, then a header event); a purge by id;
/// a lane batch; a truncate, whose log holds the rows it keeps.
pub proof fn lemma_aof_replay(s: RingView, lane: int, id: u128, row: Seq<u128>, rows: Seq<Seq<u128>>, values: Seq<u128>)
    requires
        s.wf(),
    ensures
        rows_fit(rows, s.lanes.len() as int) ==> apply_records(
            s,
            aof_records(
                seq![
                    OpView::Insert { cursor: s.cursor, row_count: rows.len() as int, rows },
                    OpView::HeaderUpdate { len: s.insert_rows(rows).len, cursor: s.insert_rows(rows).cursor },
                ],
            ),
        ) == s.insert_rows(rows),
        id != 0 && row.len() == s.lanes.len() && 0 <= lane < s.lanes.len() && s.has_match(lane, id)
            ==> apply_records(
            s,
            aof_records(
                crate::ring::update_events(s, lane, id, row, s.capacity).push(
                    OpView::HeaderUpdate { len: s.len, cursor: s.cursor },
                ),
            ),
        ) == s.update_matching(lane, id, row),
        id != 0 && 0 <= lane < s.lanes.len() ==> apply_records(
            s,
            aof_records(
                seq![
                    OpView::Purge {
                        physical_indices: crate::ring::matching_slots(s, lane, id, s.capacity),
                        id,
                        column: lane,
                    },
                    OpView::HeaderUpdate {
                        len: s.purge_matching(lane, id).len,
                        cursor: s.purge_matching(lane, id).cursor,
                    },
                ],
            ),
        ) == s.purge_matching(lane, id),
        0 <= lane < s.lanes.len() && values.len() <= s.capacity ==> apply_records(
            s,
            aof_records(
                seq![
                    OpView::LaneBatch { lane, start: s.cursor, values },
                    OpView::HeaderUpdate {
                        len: s.lane_batch(lane, values).len,
                        cursor: s.lane_batch(lane, values).cursor,
                    },
                ],
            ),
        ) == s.lane_batch(lane, values),
        rows_fit(kept_rows(rows, s.capacity), s.lanes.len() as int) ==> apply_records(
            s,
            aof_records(
                seq![
                    OpView::Truncate { rows: kept_rows(rows, s.capacity) },
                    OpView::HeaderUpdate {
                        len: s.truncate_with(rows).len,
                        cursor: s.truncate_with(rows).cursor,
                    },
                ],
            ),
        ) == s.truncate_with(rows),
{
    if rows_fit(rows, s.lanes.len() as int) {
        lemma_replay_rows(s, rows);
        lemma_records_with_header(
            OpView::Insert { cursor: s.cursor, row_count: rows.len() as int, rows },
            OpView::HeaderUpdate { len: s.insert_rows(rows).len, cursor: s.insert_rows(rows).cursor },
        );
    }
    lemma_records_with_header(
        OpView::Purge {
            physical_indices: crate::ring::matching_slots(s, lane, id, s.capacity),
            id,
            column: lane,
        },
        OpView::HeaderUpdate { len: s.purge_matching(lane, id).len, cursor: s.purge_matching(lane, id).cursor },
    );
    lemma_apply_one(s, RecView::Purge { column: lane, id });
    lemma_records_with_header(
        OpView::LaneBatch { lane, start: s.cursor, values },
        OpView::HeaderUpdate { len: s.lane_batch(lane, values).len, cursor: s.lane_batch(lane, values).cursor },
    );
    lemma_apply_one(s, RecView::LaneBatch { lane, values });
    if rows_fit(kept_rows(rows, s.capacity), s.lanes.len() as int) {
        let kept = kept_rows(rows, s.capacity);
        lemma_records_with_header(
            OpView::Truncate { rows: kept },
            OpView::HeaderUpdate { len: s.truncate_with(rows).len, cursor: s.truncate_with(rows).cursor },
        );
        lemma_apply_one(s, RecView::Truncate);
        let c = s.cleared();
        assert(Seq::<Seq<u128>>::empty().take(0) =~= Seq::<Seq<u128>>::empty());
        assert(c.insert_rows(Seq::<Seq<u128>>::empty()) == c);
        assert(s.truncate_with(Seq::empty()) == c);
        lemma_apply_records_append(s, seq![RecView::Truncate], crate::aof::insert_records(kept));
        lemma_replay_rows(c, kept);
    }
    if id != 0 && row.len() == s.lanes.len() && 0 <= lane < s.lanes.len() && s.has_match(lane, id) {
        let ev = crate::ring::update_events(s, lane, id, row, s.capacity);
        let all = ev.push(OpView::HeaderUpdate { len: s.len, cursor: s.cursor });
        assert(all.drop_last() =~= ev);
        assert(aof_records(all) =~= aof_records(ev));
        lemma_replay_update_copies(s, lane, id, row, s.capacity);
        let k = s.count_matches(lane, id, s.capacity);
        let i = choose|i: int| 0 <= i < s.capacity && s.lanes[lane][i] == id;
        lemma_count_positive(s, lane, id, s.capacity, i);
        let copies = Seq::new(k as nat, |j: int| RecView::Update { column: lane, id, row });
        let one = seq![RecView::Update { column: lane, id, row }];
        let rest = Seq::new((k - 1) as nat, |j: int| RecView::Update { column: lane, id, row });
        assert(copies =~= one + rest);
        lemma_apply_records_append(s, one, rest);
        let t = s.update_matching(lane, id, row);
        lemma_apply_one(s, RecView::Update { column: lane, id, row });
        assert(apply_records(s, one) == t);
        assert forall|d: int| 0 <= d < t.lanes.len() implies #[trigger] t.lanes[d].len() == t.capacity by {}
        lemma_update_idempotent(s, lane, id, row);
        lemma_replay_copies(t, lane, id, row, k - 1);
        lemma_apply_one(s, RecView::Update { column: lane, id, row });
    }
}

proof fn lemma_records_with_header(a: OpView, b: OpView)
    requires
        b is HeaderUpdate,
    ensures
        aof_records(seq![a, b]) == op_records(a),
{
    assert(seq![a, b].drop_last() =~= seq![a]);
    assert(seq![a].drop_last() =~= Seq::<OpView>::empty());
    assert(aof_records(Seq::<OpView>::empty()) == Seq::<RecView>::empty());
    assert(seq![a].last() == a);
    assert(aof_records(seq![a]) =~= op_records(a));
    assert(op_records(b) =~= Seq::<RecView>::empty());
    assert(aof_records(seq![a, b]) =~= op_records(a));
}

proof fn lemma_apply_one(s: RingView, r: RecView)
    ensures
        apply_records(s, seq![r]) == apply_record(s, r),
{
    assert(seq![r].drop_last() =~= Seq::<RecView>::empty());
    assert(apply_records(s, Seq::<RecView>::empty()) == s);
    assert(seq![r].last() == r);
}

/// Inserting one row whose first cell is non-zero leaves that cell in lane 0 at
/// the old cursor and moves the cursor to `(cursor + 1) mod capacity`.
pub proof fn lemma_single_insert(s: RingView, row: Seq<u128>)
    requires
        s.wf(),
        row.len() == s.lanes.len(),
        row[0] != 0,
    ensures
        s.insert_rows(seq![row]).lanes[0][s.cursor] != 0,
        s.insert_rows(seq![row]).cursor == (s.cursor + 1) % s.capacity,
        s.insert_rows(seq![row]).wf(),
{
    assert(seq![row].drop_last() =~= Seq::<Seq<u128>>::empty());
    assert(s.insert_rows(Seq::<Seq<u128>>::empty()) == s);
    assert(s.insert_rows(seq![row].drop_last()) == s);
    assert(seq![row].last() == row);
    assert(s.insert_rows(seq![row]) == s.insert_row(row));
    lemma_insert_advances(s, row);
}

} // verus!
