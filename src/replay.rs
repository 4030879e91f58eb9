use vstd::prelude::*;

use crate::aof::{AofRecord, RecView};
use crate::error::OrbyError;
use crate::logic::{rows_view, OrbyRingBufferSilo, PersistenceChanges, RingView};
use crate::ring;

verus! {

/// The state that re-issuing one log record leaves, through the same operation
/// the live store ran: an insert of one row, an update or purge by id, a
/// truncate with no rows, or a lane batch. Records those operations would
/// refuse or ignore leave the state as it is.
pub open spec fn apply_record(s: RingView, r: RecView) -> RingView {
    let d = s.lanes.len() as int;
    match r {
        RecView::Insert { row } => if row.len() == d {
            s.insert_row(row)
        } else {
            s
        },
        RecView::Purge { column, id } => if id != 0 && 0 <= column < d {
            s.purge_matching(column, id)
        } else {
            s
        },
        RecView::Update { column, id, row } => if id != 0 && row.len() == d && 0 <= column < d
            && s.has_match(column, id) {
            s.update_matching(column, id, row)
        } else {
            s
        },
        RecView::Truncate => s.truncate_with(Seq::empty()),
        RecView::LaneBatch { lane, values } => if 0 <= lane < d && values.len() <= s.capacity {
            s.lane_batch(lane, values)
        } else {
            s
        },
    }
}

/// Records re-issued in log order.
pub open spec fn apply_records(s: RingView, rs: Seq<RecView>) -> RingView
    decreases rs.len(),
{
    if rs.len() == 0 {
        s
    } else {
        apply_record(apply_records(s, rs.drop_last()), rs.last())
    }
}

/// Re-issues one log record through the operation that wrote it: an insert of
/// one row, an update or purge by id, a truncate with no rows, or a lane batch.
/// An insert row of the wrong width, or a lane batch that names no lane or is
/// longer than the ring, is refused with the error that operation gives.
pub fn replay_record(
    store: &mut OrbyRingBufferSilo,
    rec: AofRecord,
    changes: &mut PersistenceChanges,
) -> (r: Result<(), OrbyError>)
    requires
        old(store).wf(),
    ensures
        final(store).wf(),
        ring::same_config(final(store), old(store)),
        final(store)@ == apply_record(old(store)@, rec@),
        r is Err <==> match rec@ {
            RecView::Insert { row } => row.len() != old(store).ring_buffer_lane_count,
            RecView::LaneBatch { lane, values } => !(lane < old(store).ring_buffer_lane_count
                && values.len() <= old(store).capacity),
            _ => false,
        },
{
    let ghost s0 = store@;
    let ghost rv = rec@;
    match rec {
        AofRecord::Insert { row } => {
            let ghost r0 = row@;
            let mut rows: Vec<Vec<u128>> = Vec::new();
            rows.push(row);
            proof {
                let v = rows_view(rows@);
                assert(v =~= seq![r0]);
                assert(v.drop_last() =~= Seq::<Seq<u128>>::empty());
                assert(s0.insert_rows(Seq::<Seq<u128>>::empty()) == s0);
                assert(s0.insert_rows(v) == s0.insert_row(r0));
            }
            let res = ring::insert_batch(store, rows, changes);
            proof {
                if r0.len() != s0.lanes.len() {
                    assert(rows_view(rows@)[0] == r0);
                }
            }
            res
        },
        AofRecord::Purge { column, id } => {
            ring::purge_by_id(store, column, id, changes);
            Ok(())
        },
        AofRecord::Update { column, id, row } => {
            ring::update_by_id(store, column, id, &row, changes);
            Ok(())
        },
        AofRecord::Truncate => {
            let res = ring::truncate(store, Vec::new(), changes);
            proof {
                assert(rows_view(Seq::<Vec<u128>>::empty()) =~= Seq::<Seq<u128>>::empty());
            }
            res
        },
        AofRecord::LaneBatch { lane, values } => ring::insert_lane_batch(store, lane, &values, changes),
    }
}

} // verus!
