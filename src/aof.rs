use vstd::prelude::*;

use crate::codec::{byte_pow, le_bytes, le_value, lemma_byte_pows, lemma_le_value_bound, push_le, read_le};
use crate::error::OrbyError;
use crate::logic::{
    rows_view, OpView, PersistenceChanges, RingOperation, AOF_OP_INSERT, AOF_OP_LANE_BATCH, AOF_OP_PURGE,
    AOF_OP_TRUNCATE, AOF_OP_UPDATE,
};

verus! {

/// One record of the append-only log.
#[derive(Debug, Clone)]
pub enum AofRecord {
    Insert { row: Vec<u128> },
    Purge { column: usize, id: u128 },
    Update { column: usize, id: u128, row: Vec<u128> },
    Truncate,
    LaneBatch { lane: usize, values: Vec<u128> },
}

/// The contents of an `AofRecord`.
pub enum RecView {
    Insert { row: Seq<u128> },
    Purge { column: int, id: u128 },
    Update { column: int, id: u128, row: Seq<u128> },
    Truncate,
    LaneBatch { lane: int, values: Seq<u128> },
}

impl View for AofRecord {
    type V = RecView;

    open spec fn view(&self) -> RecView {
        match self {
            AofRecord::Insert { row } => RecView::Insert { row: row@ },
            AofRecord::Purge { column, id } => RecView::Purge { column: *column as int, id: *id },
            AofRecord::Update { column, id, row } => RecView::Update {
                column: *column as int,
                id: *id,
                row: row@,
            },
            AofRecord::Truncate => RecView::Truncate,
            AofRecord::LaneBatch { lane, values } => RecView::LaneBatch {
                lane: *lane as int,
                values: values@,
            },
        }
    }
}

/// Cells as consecutive 16-byte little-endian values.
pub open spec fn cells_bytes(cells: Seq<u128>) -> Seq<u8>
    decreases cells.len(),
{
    if cells.len() == 0 {
        Seq::empty()
    } else {
        cells_bytes(cells.drop_last()) + le_bytes(cells.last() as nat, 16)
    }
}

/// The bytes of one record: its opcode, then its fixed-width payload.
pub open spec fn rec_bytes(r: RecView) -> Seq<u8> {
    match r {
        RecView::Insert { row } => seq![AOF_OP_INSERT] + cells_bytes(row),
        RecView::Purge { column, id } => seq![AOF_OP_PURGE] + le_bytes(column as nat, 4) + le_bytes(
            id as nat,
            16,
        ),
        RecView::Update { column, id, row } => seq![AOF_OP_UPDATE] + le_bytes(column as nat, 4)
            + le_bytes(id as nat, 16) + cells_bytes(row),
        RecView::Truncate => seq![AOF_OP_TRUNCATE],
        RecView::LaneBatch { lane, values } => seq![AOF_OP_LANE_BATCH] + le_bytes(lane as nat, 4)
            + le_bytes(values.len(), 4) + cells_bytes(values),
    }
}

/// Records written one after another.
pub open spec fn records_bytes(rs: Seq<RecView>) -> Seq<u8>
    decreases rs.len(),
{
    if rs.len() == 0 {
        Seq::empty()
    } else {
        records_bytes(rs.drop_last()) + rec_bytes(rs.last())
    }
}

/// One insert record per row.
pub open spec fn insert_records(rows: Seq<Seq<u128>>) -> Seq<RecView> {
    rows.map_values(|row: Seq<u128>| RecView::Insert { row })
}

/// The log records of one change: one insert record per row; one record for
/// an update, purge or lane batch; a truncate record followed by an insert
/// record per row it keeps; none for a delete or a header change.
pub open spec fn op_records(op: OpView) -> Seq<RecView> {
    match op {
        OpView::Insert { rows, .. } => insert_records(rows),
        OpView::Update { id, row, column, .. } => seq![RecView::Update { column, id, row }],
        OpView::Purge { id, column, .. } => seq![RecView::Purge { column, id }],
        OpView::Truncate { rows } => seq![RecView::Truncate] + insert_records(rows),
        OpView::LaneBatch { lane, values, .. } => seq![RecView::LaneBatch { lane, values }],
        _ => Seq::empty(),
    }
}

/// The log records of a change list, in order.
pub open spec fn aof_records(ops: Seq<OpView>) -> Seq<RecView>
    decreases ops.len(),
{
    if ops.len() == 0 {
        Seq::empty()
    } else {
        aof_records(ops.drop_last()) + op_records(ops.last())
    }
}

proof fn lemma_records_bytes_push(rs: Seq<RecView>, r: RecView)
    ensures
        records_bytes(rs.push(r)) == records_bytes(rs) + rec_bytes(r),
{
    assert(rs.push(r).drop_last() =~= rs);
}

/// Appends cells as 16-byte little-endian values.
fn push_cells(out: &mut Vec<u8>, cells: &Vec<u128>)
    ensures
        final(out)@ == old(out)@ + cells_bytes(cells@),
{
    let ghost start = out@;
    let mut i: usize = 0;
    while i < cells.len()
        invariant
            i <= cells@.len(),
            out@ == start + cells_bytes(cells@.take(i as int)),
        decreases cells@.len() - i,
    {
        push_le(out, cells[i], 16);
        proof {
            let t = cells@.take(i as int + 1);
            assert(t.drop_last() =~= cells@.take(i as int));
            assert(start + cells_bytes(t) =~= start + cells_bytes(cells@.take(i as int)) + le_bytes(
                cells@[i as int] as nat,
                16,
            ));
        }
        i = i + 1;
    }
    assert(cells@.take(cells@.len() as int) =~= cells@);
}

/// Appends one insert record per row.
fn push_insert_records(out: &mut Vec<u8>, rows: &Vec<Vec<u128>>, Ghost(done): Ghost<Seq<RecView>>)
    requires
        old(out)@ == records_bytes(done),
    ensures
        final(out)@ == records_bytes(done + insert_records(rows_view(rows@))),
{
    let ghost all = insert_records(rows_view(rows@));
    let mut k: usize = 0;
    while k < rows.len()
        invariant
            k <= rows@.len(),
            all == insert_records(rows_view(rows@)),
            out@ == records_bytes(done + all.take(k as int)),
        decreases rows@.len() - k,
    {
        out.push(AOF_OP_INSERT);
        push_cells(out, &rows[k]);
        proof {
            let r = RecView::Insert { row: rows@[k as int]@ };
            assert(all[k as int] == r);
            let prev = done + all.take(k as int);
            lemma_records_bytes_push(prev, r);
            assert(records_bytes(prev) + rec_bytes(r) =~= out@);
            assert(done + all.take(k as int + 1) =~= prev.push(r));
        }
        k = k + 1;
    }
    assert(all.take(k as int) =~= all);
}

impl PersistenceChanges {
    /// The append-only log bytes of these changes.
    pub fn flatten(&self) -> (r: Vec<u8>)
        ensures
            r@ == records_bytes(aof_records(self@)),
    {
        let mut out: Vec<u8> = Vec::new();
        let ghost mut done: Seq<RecView> = Seq::empty();
        let mut i: usize = 0;
        while i < self.ops.len()
            invariant
                i <= self@.len(),
                self@.len() == self.ops@.len(),
                done == aof_records(self@.take(i as int)),
                out@ == records_bytes(done),
            decreases self@.len() - i,
        {
            let ghost before = done;
            let ghost op = self@[i as int];
            proof {
                assert(self@.take(i as int + 1).drop_last() =~= self@.take(i as int));
            }
            match &self.ops[i] {
                RingOperation::Insert { data, .. } => {
                    push_insert_records(&mut out, data, Ghost(done));
                    proof {
                        done = done + insert_records(rows_view(data@));
                    }
                },
                RingOperation::Update { id, new_data, logical_column, .. } => {
                    out.push(AOF_OP_UPDATE);
                    push_le(&mut out, *logical_column as u128, 4);
                    push_le(&mut out, *id, 16);
                    push_cells(&mut out, new_data);
                    proof {
                        let r = RecView::Update {
                            column: *logical_column as int,
                            id: *id,
                            row: new_data@,
                        };
                        lemma_records_bytes_push(done, r);
                        assert(records_bytes(done) + rec_bytes(r) =~= out@);
                        done = done.push(r);
                        assert(op_records(op) =~= seq![r]);
                    }
                },
                RingOperation::Purge { id, logical_column, .. } => {
                    out.push(AOF_OP_PURGE);
                    push_le(&mut out, *logical_column as u128, 4);
                    push_le(&mut out, *id, 16);
                    proof {
                        let r = RecView::Purge { column: *logical_column as int, id: *id };
                        lemma_records_bytes_push(done, r);
                        assert(records_bytes(done) + rec_bytes(r) =~= out@);
                        done = done.push(r);
                        assert(op_records(op) =~= seq![r]);
                    }
                },
                RingOperation::Truncate { new_rows } => {
                    out.push(AOF_OP_TRUNCATE);
                    proof {
                        let r = RecView::Truncate;
                        lemma_records_bytes_push(done, r);
                        assert(records_bytes(done) + rec_bytes(r) =~= out@);
                        done = done.push(r);
                    }
                    push_insert_records(&mut out, new_rows, Ghost(done));
                    proof {
                        assert(before.push(RecView::Truncate) + insert_records(rows_view(new_rows@))
                            =~= before + op_records(op));
                        done = done + insert_records(rows_view(new_rows@));
                    }
                },
                RingOperation::LaneBatch { lane_idx, values, .. } => {
                    out.push(AOF_OP_LANE_BATCH);
                    push_le(&mut out, *lane_idx as u128, 4);
                    push_le(&mut out, values.len() as u128, 4);
                    push_cells(&mut out, values);
                    proof {
                        let r = RecView::LaneBatch { lane: *lane_idx as int, values: values@ };
                        lemma_records_bytes_push(done, r);
                        assert(records_bytes(done) + rec_bytes(r) =~= out@);
                        done = done.push(r);
                        assert(op_records(op) =~= seq![r]);
                    }
                },
                _ => {
                    proof {
                        assert(op_records(op) =~= Seq::<RecView>::empty());
                        assert(done =~= done + op_records(op));
                    }
                },
            }
            i = i + 1;
        }
        proof {
            assert(self@.take(self@.len() as int) =~= self@);
        }
        out
    }
}

/// Cells take sixteen bytes each.
pub proof fn lemma_cells_bytes_len(c: Seq<u128>)
    ensures
        cells_bytes(c).len() == 16 * c.len(),
    decreases c.len(),
{
    if c.len() > 0 {
        lemma_cells_bytes_len(c.drop_last());
        crate::codec::lemma_le_bytes_len(c.last() as nat, 16);
    }
}

/// Cells written as bytes read back as the same cells.
pub proof fn lemma_cells_round_trip(c: Seq<u128>)
    ensures
        cells_at(cells_bytes(c), 0, c.len() as int) == c,
    decreases c.len(),
{
    let n = c.len() as int;
    if n > 0 {
        let p = c.drop_last();
        let last = c.last();
        lemma_cells_round_trip(p);
        lemma_cells_bytes_len(p);
        crate::codec::lemma_le_bytes_len(last as nat, 16);
        let b = cells_bytes(c);
        let pb = cells_bytes(p);
        assert(b == pb + le_bytes(last as nat, 16));
        assert forall|i: int| 0 <= i < n implies #[trigger] cells_at(b, 0, n)[i] == c[i] by {
            if i < n - 1 {
                assert(b.subrange(16 * i, 16 * i + 16) =~= pb.subrange(16 * i, 16 * i + 16));
                assert(cells_at(pb, 0, n - 1)[i] == p[i]);
            } else {
                assert(b.subrange(16 * i, 16 * i + 16) =~= le_bytes(last as nat, 16));
                lemma_byte_pows();
                crate::codec::lemma_le_round_trip(last as nat, 16);
            }
        }
        assert(cells_at(b, 0, n) =~= c);
    } else {
        assert(cells_at(cells_bytes(c), 0, 0) =~= c);
    }
}

/// What the log holds at one position: a record and where the next one starts,
/// an unknown opcode (the end of the usable log), or a cut-off record.
pub enum Step {
    Record(RecView, int),
    Stop,
    Truncated,
}

/// `k` cells read as 16-byte little-endian values from `pos` on.
pub open spec fn cells_at(b: Seq<u8>, pos: int, k: int) -> Seq<u128> {
    Seq::new(k as nat, |i: int| le_value(b.subrange(pos + 16 * i, pos + 16 * i + 16)) as u128)
}

/// The record at `pos`, for rows of `d` cells.
pub open spec fn step_at(b: Seq<u8>, pos: int, d: int) -> Step {
    let op = b[pos];
    let len = b.len() as int;
    if op == AOF_OP_INSERT {
        if pos + 1 + 16 * d <= len {
            Step::Record(RecView::Insert { row: cells_at(b, pos + 1, d) }, pos + 1 + 16 * d)
        } else {
            Step::Truncated
        }
    } else if op == AOF_OP_PURGE {
        if pos + 21 <= len {
            Step::Record(
                RecView::Purge {
                    column: le_value(b.subrange(pos + 1, pos + 5)) as int,
                    id: le_value(b.subrange(pos + 5, pos + 21)) as u128,
                },
                pos + 21,
            )
        } else {
            Step::Truncated
        }
    } else if op == AOF_OP_UPDATE {
        if pos + 21 + 16 * d <= len {
            Step::Record(
                RecView::Update {
                    column: le_value(b.subrange(pos + 1, pos + 5)) as int,
                    id: le_value(b.subrange(pos + 5, pos + 21)) as u128,
                    row: cells_at(b, pos + 21, d),
                },
                pos + 21 + 16 * d,
            )
        } else {
            Step::Truncated
        }
    } else if op == AOF_OP_TRUNCATE {
        Step::Record(RecView::Truncate, pos + 1)
    } else if op == AOF_OP_LANE_BATCH {
        if pos + 9 <= len {
            let count = le_value(b.subrange(pos + 5, pos + 9)) as int;
            if pos + 9 + 16 * count <= len {
                Step::Record(
                    RecView::LaneBatch {
                        lane: le_value(b.subrange(pos + 1, pos + 5)) as int,
                        values: cells_at(b, pos + 9, count),
                    },
                    pos + 9 + 16 * count,
                )
            } else {
                Step::Truncated
            }
        } else {
            Step::Truncated
        }
    } else {
        Step::Stop
    }
}

/// The records from `pos` to the end of the log or to the first unknown opcode;
/// `None` when a record is cut off.
pub open spec fn decode_from(b: Seq<u8>, pos: int, d: int) -> Option<Seq<RecView>>
    decreases b.len() - pos,
{
    if pos < 0 || pos >= b.len() {
        Some(Seq::empty())
    } else {
        match step_at(b, pos, d) {
            Step::Record(r, next) => if next > pos {
                match decode_from(b, next, d) {
                    Some(rs) => Some(seq![r] + rs),
                    None => None,
                }
            } else {
                None
            },
            Step::Stop => Some(Seq::empty()),
            Step::Truncated => None,
        }
    }
}

/// Whether a record can be written and read back: rows of `d` cells, and lane
/// numbers and counts that fit the 32-bit fields.
pub open spec fn rec_valid(r: RecView, d: int) -> bool {
    match r {
        RecView::Insert { row } => row.len() == d,
        RecView::Purge { column, .. } => 0 <= column < 0x1_0000_0000,
        RecView::Update { column, row, .. } => 0 <= column < 0x1_0000_0000 && row.len() == d,
        RecView::Truncate => true,
        RecView::LaneBatch { lane, values } => 0 <= lane < 0x1_0000_0000 && values.len()
            < 0x1_0000_0000,
    }
}

proof fn lemma_records_bytes_front(r: RecView, rs: Seq<RecView>)
    ensures
        records_bytes(seq![r] + rs) == rec_bytes(r) + records_bytes(rs),
    decreases rs.len(),
{
    if rs.len() == 0 {
        assert(seq![r] + rs =~= seq![r]);
        assert(seq![r].drop_last() =~= Seq::<RecView>::empty());
        assert(records_bytes(Seq::<RecView>::empty()) == Seq::<u8>::empty());
        assert(rec_bytes(r) + records_bytes(rs) =~= records_bytes(Seq::<RecView>::empty()) + rec_bytes(r));
    } else {
        lemma_records_bytes_front(r, rs.drop_last());
        assert((seq![r] + rs).drop_last() =~= seq![r] + rs.drop_last());
        assert((seq![r] + rs).last() == rs.last());
        assert(rec_bytes(r) + records_bytes(rs) =~= rec_bytes(r) + records_bytes(rs.drop_last())
            + rec_bytes(rs.last()));
    }
}

proof fn lemma_cells_at_shift(x: Seq<u8>, y: Seq<u8>, z: Seq<u8>, n: int)
    requires
        0 <= n,
        y.len() >= 16 * n,
    ensures
        cells_at(x + y + z, x.len() as int, n) == cells_at(y, 0, n),
{
    let b = x + y + z;
    let p = x.len() as int;
    assert forall|i: int| 0 <= i < n implies #[trigger] cells_at(b, p, n)[i] == cells_at(y, 0, n)[i] by {
        assert(b.subrange(p + 16 * i, p + 16 * i + 16) =~= y.subrange(16 * i, 16 * i + 16));
    }
    assert(cells_at(b, p, n) =~= cells_at(y, 0, n));
}

proof fn lemma_le_at(x: Seq<u8>, v: nat, n: nat, z: Seq<u8>)
    requires
        v < crate::codec::byte_pow(n),
    ensures
        (x + le_bytes(v, n) + z).subrange(x.len() as int, (x.len() + n) as int) =~= le_bytes(v, n),
        le_value((x + le_bytes(v, n) + z).subrange(x.len() as int, (x.len() + n) as int)) == v,
{
    crate::codec::lemma_le_bytes_len(v, n);
    assert((x + le_bytes(v, n) + z).subrange(x.len() as int, (x.len() + n) as int) =~= le_bytes(v, n));
    crate::codec::lemma_le_round_trip(v, n);
}

/// The record written at `pre.len()` reads back as itself, followed by the
/// position just past it.
proof fn lemma_step_round_trip(pre: Seq<u8>, r: RecView, tail: Seq<u8>, d: int)
    requires
        rec_valid(r, d),
        d >= 0,
    ensures
        step_at(pre + rec_bytes(r) + tail, pre.len() as int, d) == Step::Record(
            r,
            (pre.len() + rec_bytes(r).len()) as int,
        ),
        rec_bytes(r).len() > 0,
{
    let b = pre + rec_bytes(r) + tail;
    let p = pre.len() as int;
    lemma_byte_pows();
    match r {
        RecView::Insert { row } => {
            lemma_cells_bytes_len(row);
            lemma_cells_round_trip(row);
            assert(b =~= (pre + seq![AOF_OP_INSERT]) + cells_bytes(row) + tail);
            lemma_cells_at_shift(pre + seq![AOF_OP_INSERT], cells_bytes(row), tail, d);
        },
        RecView::Purge { column, id } => {
            let c = le_bytes(column as nat, 4);
            let i = le_bytes(id as nat, 16);
            crate::codec::lemma_le_bytes_len(column as nat, 4);
            crate::codec::lemma_le_bytes_len(id as nat, 16);
            assert(b =~= (pre + seq![AOF_OP_PURGE]) + c + (i + tail));
            lemma_le_at(pre + seq![AOF_OP_PURGE], column as nat, 4, i + tail);
            assert(b =~= (pre + seq![AOF_OP_PURGE] + c) + i + tail);
            lemma_le_at(pre + seq![AOF_OP_PURGE] + c, id as nat, 16, tail);
        },
        RecView::Update { column, id, row } => {
            let c = le_bytes(column as nat, 4);
            let i = le_bytes(id as nat, 16);
            crate::codec::lemma_le_bytes_len(column as nat, 4);
            crate::codec::lemma_le_bytes_len(id as nat, 16);
            lemma_cells_bytes_len(row);
            lemma_cells_round_trip(row);
            let cb = cells_bytes(row);
            assert(b =~= (pre + seq![AOF_OP_UPDATE]) + c + (i + cb + tail));
            lemma_le_at(pre + seq![AOF_OP_UPDATE], column as nat, 4, i + cb + tail);
            assert(b =~= (pre + seq![AOF_OP_UPDATE] + c) + i + (cb + tail));
            lemma_le_at(pre + seq![AOF_OP_UPDATE] + c, id as nat, 16, cb + tail);
            assert(b =~= (pre + seq![AOF_OP_UPDATE] + c + i) + cb + tail);
            lemma_cells_at_shift(pre + seq![AOF_OP_UPDATE] + c + i, cb, tail, d);
        },
        RecView::Truncate => {},
        RecView::LaneBatch { lane, values } => {
            let l = le_bytes(lane as nat, 4);
            let k = le_bytes(values.len(), 4);
            crate::codec::lemma_le_bytes_len(lane as nat, 4);
            crate::codec::lemma_le_bytes_len(values.len(), 4);
            lemma_cells_bytes_len(values);
            lemma_cells_round_trip(values);
            let cb = cells_bytes(values);
            assert(b =~= (pre + seq![AOF_OP_LANE_BATCH]) + l + (k + cb + tail));
            lemma_le_at(pre + seq![AOF_OP_LANE_BATCH], lane as nat, 4, k + cb + tail);
            assert(b =~= (pre + seq![AOF_OP_LANE_BATCH] + l) + k + (cb + tail));
            lemma_le_at(pre + seq![AOF_OP_LANE_BATCH] + l, values.len(), 4, cb + tail);
            assert(b =~= (pre + seq![AOF_OP_LANE_BATCH] + l + k) + cb + tail);
            lemma_cells_at_shift(pre + seq![AOF_OP_LANE_BATCH] + l + k, cb, tail, values.len() as int);
        },
    }
}

proof fn lemma_decode_suffix(pre: Seq<u8>, rs: Seq<RecView>, d: int)
    requires
        d >= 0,
        forall|i: int| 0 <= i < rs.len() ==> rec_valid(#[trigger] rs[i], d),
    ensures
        decode_from(pre + records_bytes(rs), pre.len() as int, d) == Some(rs),
    decreases rs.len(),
{
    if rs.len() == 0 {
        assert(pre + records_bytes(rs) =~= pre);
    } else {
        let r = rs[0];
        let rest = rs.drop_first();
        assert(rs =~= seq![r] + rest);
        lemma_records_bytes_front(r, rest);
        let b = pre + records_bytes(rs);
        assert(b =~= pre + rec_bytes(r) + records_bytes(rest));
        lemma_step_round_trip(pre, r, records_bytes(rest), d);
        let pre2 = pre + rec_bytes(r);
        assert(b =~= pre2 + records_bytes(rest));
        assert forall|i: int| 0 <= i < rest.len() implies rec_valid(#[trigger] rest[i], d) by {
            assert(rest[i] == rs[i + 1]);
        }
        lemma_decode_suffix(pre2, rest, d);
        assert(seq![r] + rest =~= rs);
    }
}

/// Log round trip: records written one after another read back as the same
/// records, when each fits its fields and rows have `d` cells.
pub proof fn lemma_aof_round_trip(rs: Seq<RecView>, d: int)
    requires
        d >= 0,
        forall|i: int| 0 <= i < rs.len() ==> rec_valid(#[trigger] rs[i], d),
    ensures
        decode_from(records_bytes(rs), 0, d) == Some(rs),
{
    lemma_decode_suffix(Seq::empty(), rs, d);
    assert(Seq::<u8>::empty() + records_bytes(rs) =~= records_bytes(rs));
}

/// Whether `k` cells of 16 bytes fit in `remaining` bytes.
fn cells_fit(remaining: usize, k: usize) -> (r: bool)
    ensures
        r == (remaining as int >= 16 * k as int),
{
    let q = remaining / 16;
    assert(q >= k <==> remaining as int >= 16 * k as int) by (nonlinear_arith)
        requires
            q == remaining as int / 16,
    ;
    q >= k
}

/// Reads `k` cells from `pos` on.
fn read_cells(b: &Vec<u8>, pos: usize, k: usize) -> (r: Vec<u128>)
    requires
        pos + 16 * k <= b@.len(),
    ensures
        r@ == cells_at(b@, pos as int, k as int),
{
    let blen = b.len();
    let mut out: Vec<u128> = Vec::new();
    let mut i: usize = 0;
    while i < k
        invariant
            i <= k,
            blen == b@.len(),
            pos + 16 * k <= b@.len(),
            out@.len() == i,
            forall|j: int| 0 <= j < i ==> #[trigger] out@[j] == cells_at(b@, pos as int, k as int)[j],
        decreases k - i,
    {
        assert(16 * i + 16 <= 16 * k) by (nonlinear_arith)
            requires
                i < k,
        ;
        let v = read_le(b, pos + 16 * i, 16);
        proof {
            lemma_le_value_bound(b@.subrange(pos + 16 * i, pos + 16 * i + 16));
            lemma_byte_pows();
        }
        out.push(v);
        i = i + 1;
    }
    assert(out@ =~= cells_at(b@, pos as int, k as int));
    out
}

/// The complete records at the start of a log whose rows have `lane_count`
/// cells, up to its end or its first unknown opcode, and, when a record is cut
/// off by the end of the log, an `InvalidFormat` error for it. The records
/// before a cut-off one are returned in either case.
pub fn parse_aof_prefix(bytes: &Vec<u8>, lane_count: usize) -> (r: (Vec<AofRecord>, Option<OrbyError>))
    ensures
        r.0@.map_values(|x: AofRecord| x@) == decode_prefix(bytes@, 0, lane_count as int).0,
        r.1 is Some <==> decode_prefix(bytes@, 0, lane_count as int).1,
        r.1 matches Some(e) ==> e is InvalidFormat,
{
    let blen = bytes.len();
    let ghost b = bytes@;
    let ghost d = lane_count as int;
    let mut recs: Vec<AofRecord> = Vec::new();
    let mut pos: usize = 0;
    proof {
        lemma_byte_pows();
    }
    while pos < blen
        invariant
            blen == b.len(),
            b == bytes@,
            d == lane_count as int,
            pos <= blen,
            byte_pow(4) == 0x1_0000_0000,
            byte_pow(16) == 0x1_0000_0000_0000_0000_0000_0000_0000_0000,
            decode_prefix(b, 0, d).0 == recs@.map_values(|x: AofRecord| x@) + decode_prefix(b, pos as int, d).0,
            decode_prefix(b, 0, d).1 == decode_prefix(b, pos as int, d).1,
        decreases blen - pos,
    {
        let ghost rv = recs@.map_values(|x: AofRecord| x@);
        let op = bytes[pos];
        let remaining = blen - pos - 1;
        let rec: AofRecord;
        let next: usize;
        if op == AOF_OP_INSERT {
            if !cells_fit(remaining, lane_count) {
                proof {
                    assert(rv + Seq::<RecView>::empty() =~= rv);
                }
                return (recs, Some(OrbyError::InvalidFormat(String::from_str("truncated insert record"))));
            }
            let row = read_cells(bytes, pos + 1, lane_count);
            next = pos + 1 + 16 * lane_count;
            rec = AofRecord::Insert { row };
        } else if op == AOF_OP_PURGE {
            if remaining < 20 {
                proof {
                    assert(rv + Seq::<RecView>::empty() =~= rv);
                }
                return (recs, Some(OrbyError::InvalidFormat(String::from_str("truncated purge record"))));
            }
            let column = read_le(bytes, pos + 1, 4);
            let id = read_le(bytes, pos + 5, 16);
            proof {
                lemma_le_value_bound(b.subrange(pos + 1, pos + 5));
                lemma_le_value_bound(b.subrange(pos + 5, pos + 21));
            }
            next = pos + 21;
            rec = AofRecord::Purge { column: column as usize, id };
        } else if op == AOF_OP_UPDATE {
            if remaining < 20 || !cells_fit(remaining - 20, lane_count) {
                proof {
                    assert(rv + Seq::<RecView>::empty() =~= rv);
                }
                return (recs, Some(OrbyError::InvalidFormat(String::from_str("truncated update record"))));
            }
            let column = read_le(bytes, pos + 1, 4);
            let id = read_le(bytes, pos + 5, 16);
            proof {
                lemma_le_value_bound(b.subrange(pos + 1, pos + 5));
                lemma_le_value_bound(b.subrange(pos + 5, pos + 21));
            }
            let row = read_cells(bytes, pos + 21, lane_count);
            next = pos + 21 + 16 * lane_count;
            rec = AofRecord::Update { column: column as usize, id, row };
        } else if op == AOF_OP_TRUNCATE {
            next = pos + 1;
            rec = AofRecord::Truncate;
        } else if op == AOF_OP_LANE_BATCH {
            if remaining < 8 {
                proof {
                    assert(rv + Seq::<RecView>::empty() =~= rv);
                }
                return (recs, Some(OrbyError::InvalidFormat(String::from_str("truncated lane batch header"))));
            }
            let lane = read_le(bytes, pos + 1, 4);
            let count = read_le(bytes, pos + 5, 4);
            proof {
                lemma_le_value_bound(b.subrange(pos + 1, pos + 5));
                lemma_le_value_bound(b.subrange(pos + 5, pos + 9));
            }
            if !cells_fit(remaining - 8, count as usize) {
                proof {
                    assert(rv + Seq::<RecView>::empty() =~= rv);
                }
                return (recs, Some(OrbyError::InvalidFormat(String::from_str("truncated lane batch record"))));
            }
            let values = read_cells(bytes, pos + 9, count as usize);
            next = pos + 9 + 16 * (count as usize);
            rec = AofRecord::LaneBatch { lane: lane as usize, values };
        } else {
            proof {
                assert(rv + Seq::<RecView>::empty() =~= rv);
            }
            return (recs, None);
        }
        proof {
            assert(step_at(b, pos as int, d) == Step::Record(rec@, next as int));
            assert(rv.push(rec@) + decode_prefix(b, next as int, d).0 =~= rv + (seq![rec@] + decode_prefix(
                b,
                next as int,
                d,
            ).0));
        }
        recs.push(rec);
        assert(recs@.map_values(|x: AofRecord| x@) =~= rv.push(rec@));
        pos = next;
    }
    proof {
        if pos >= blen {
            assert(recs@.map_values(|x: AofRecord| x@) + Seq::<RecView>::empty() =~= recs@.map_values(
                |x: AofRecord| x@,
            ));
        }
    }
    (recs, None)
}


/// The records of a log whose rows have `lane_count` cells, up to the first
/// unknown opcode. A record cut off by the end of the log is an `InvalidFormat`
/// error.
pub fn parse_aof(bytes: &Vec<u8>, lane_count: usize) -> (r: Result<Vec<AofRecord>, OrbyError>)
    ensures
        decode_from(bytes@, 0, lane_count as int) is None <==> r is Err,
        r matches Err(e) ==> e is InvalidFormat,
        r matches Ok(v) ==> decode_from(bytes@, 0, lane_count as int) == Some(
            v@.map_values(|x: AofRecord| x@),
        ),
{
    let (recs, cut) = parse_aof_prefix(bytes, lane_count);
    proof {
        lemma_decode_prefix(bytes@, 0, lane_count as int);
    }
    match cut {
        Some(e) => Err(e),
        None => Ok(recs),
    }
}

/// The complete records from `pos` on, up to the end of the log or the first
/// unknown opcode, and whether a cut-off record ends them.
pub open spec fn decode_prefix(b: Seq<u8>, pos: int, d: int) -> (Seq<RecView>, bool)
    decreases b.len() - pos,
{
    if pos < 0 || pos >= b.len() {
        (Seq::empty(), false)
    } else {
        match step_at(b, pos, d) {
            Step::Record(r, next) => if next > pos {
                let rest = decode_prefix(b, next, d);
                (seq![r] + rest.0, rest.1)
            } else {
                (Seq::empty(), true)
            },
            Step::Stop => (Seq::empty(), false),
            Step::Truncated => (Seq::empty(), true),
        }
    }
}

/// A log decodes whole exactly when no record is cut off, and then to its complete records.
pub proof fn lemma_decode_prefix(b: Seq<u8>, pos: int, d: int)
    ensures
        decode_from(b, pos, d) == if decode_prefix(b, pos, d).1 {
            None
        } else {
            Some(decode_prefix(b, pos, d).0)
        },
    decreases b.len() - pos,
{
    if 0 <= pos < b.len() {
        if let Step::Record(r, next) = step_at(b, pos, d) {
            if next > pos {
                lemma_decode_prefix(b, next, d);
            }
        }
    }
}

} // verus!
