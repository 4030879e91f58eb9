use vstd::prelude::*;

use crate::logic::{row_is_zero, OrbyRingBufferSilo, RingView};

verus! {

/// Common row predicates, as data; `test` evaluates one. A lane index past the
/// end of the row matches nothing.
#[derive(Debug, Clone)]
pub enum RowFilter {
    /// Every row.
    All,
    /// Rows whose cell in `lane` equals `value`.
    Equals { lane: usize, value: u128 },
    /// Rows whose cell in `lane` is at least `value`.
    AtLeast { lane: usize, value: u128 },
    /// Rows whose cell in `lane` is greater than `value`.
    Greater { lane: usize, value: u128 },
    /// Rows whose cell in `lane` lies in `[min, max]`.
    Range { lane: usize, min: u128, max: u128 },
    /// Rows whose cell in `lane` is one of `values`.
    OneOf { lane: usize, values: Vec<u128> },
}

impl RowFilter {
    /// Whether the filter keeps `row`.
    pub open spec fn accepts(&self, row: Seq<u128>) -> bool {
        match self {
            RowFilter::All => true,
            RowFilter::Equals { lane, value } => *lane < row.len() && row[*lane as int] == *value,
            RowFilter::AtLeast { lane, value } => *lane < row.len() && row[*lane as int] >= *value,
            RowFilter::Greater { lane, value } => *lane < row.len() && row[*lane as int] > *value,
            RowFilter::Range { lane, min, max } => *lane < row.len() && *min <= row[*lane as int]
                <= *max,
            RowFilter::OneOf { lane, values } => *lane < row.len() && values@.contains(
                row[*lane as int],
            ),
        }
    }

    /// Evaluates the filter on one row.
    pub fn test(&self, row: &[u128]) -> (r: bool)
        ensures
            r == self.accepts(row@),
    {
        match self {
            RowFilter::All => true,
            RowFilter::Equals { lane, value } => *lane < row.len() && row[*lane] == *value,
            RowFilter::AtLeast { lane, value } => *lane < row.len() && row[*lane] >= *value,
            RowFilter::Greater { lane, value } => *lane < row.len() && row[*lane] > *value,
            RowFilter::Range { lane, min, max } => *lane < row.len() && *min <= row[*lane]
                && row[*lane] <= *max,
            RowFilter::OneOf { lane, values } => {
                if *lane >= row.len() {
                    return false;
                }
                contains_value(values, row[*lane])
            },
        }
    }
}

/// Whether `v` occurs in `values`.
fn contains_value(values: &Vec<u128>, v: u128) -> (r: bool)
    ensures
        r == values@.contains(v),
{
    let mut i: usize = 0;
    while i < values.len()
        invariant
            i <= values@.len(),
            forall|j: int| 0 <= j < i ==> values@[j] != v,
        decreases values@.len() - i,
    {
        if values[i] == v {
            assert(values@[i as int] == v);
            return true;
        }
        i = i + 1;
    }
    false
}

/// Whether the row predicate `pred` answers `true` on some slice holding `row`.
pub open spec fn keeps<F: Fn(&[u128]) -> bool>(pred: F, row: Seq<u128>) -> bool {
    exists|x: &[u128]| x@ == row && #[trigger] pred.ensures((x,), true)
}

/// `keeps` as a predicate on rows.
pub open spec fn row_keeper<F: Fn(&[u128]) -> bool>(pred: F) -> spec_fn(Seq<u128>) -> bool {
    |row: Seq<u128>| keeps(pred, row)
}

/// A pure row predicate: it accepts every row, and its answer depends on the
/// row's cells alone.
pub open spec fn is_row_predicate<F: Fn(&[u128]) -> bool>(pred: F) -> bool {
    &&& forall|x: &[u128]| #[trigger] pred.requires((x,))
    &&& forall|x: &[u128], y: &[u128]|
        #![trigger pred.ensures((x,), true), pred.ensures((y,), false)]
        x@ == y@ ==> !(pred.ensures((x,), true) && pred.ensures((y,), false))
}

/// `pred` can be called on any row and answers `keep` of its cells.
pub open spec fn decides<F: Fn(&[u128]) -> bool>(pred: F, keep: spec_fn(Seq<u128>) -> bool) -> bool {
    &&& forall|x: &[u128]| #[trigger] pred.requires((x,))
    &&& forall|x: &[u128], b: bool| #[trigger] pred.ensures((x,), b) ==> b == keep(x@)
}

proof fn lemma_row_predicate_decides<F: Fn(&[u128]) -> bool>(pred: F)
    requires
        is_row_predicate(pred),
    ensures
        decides(pred, row_keeper(pred)),
{
    assert forall|x: &[u128], b: bool| #[trigger] pred.ensures((x,), b) implies b == row_keeper(pred)(
        x@,
    ) by {
        if !b && keeps(pred, x@) {
            let y = choose|y: &[u128]| y@ == x@ && #[trigger] pred.ensures((y,), true);
            assert(!(pred.ensures((y,), true) && pred.ensures((x,), false)));
        }
    }
}

/// Every row.
pub open spec fn any_row() -> spec_fn(Seq<u128>) -> bool {
    |row: Seq<u128>| true
}

/// Whether the scan keeps logical position `j`: a live row that `keep` accepts.
pub open spec fn scan_hit(s: RingView, keep: spec_fn(Seq<u128>) -> bool, j: int) -> bool {
    !row_is_zero(s.logical_row(j)) && keep(s.logical_row(j))
}

/// The logical positions below `n` that the scan keeps, newest first.
pub open spec fn scan_hits(s: RingView, keep: spec_fn(Seq<u128>) -> bool, n: int) -> Seq<int>
    decreases n,
{
    if n <= 0 {
        Seq::empty()
    } else if scan_hit(s, keep, n - 1) {
        scan_hits(s, keep, n - 1).push(n - 1)
    } else {
        scan_hits(s, keep, n - 1)
    }
}

/// The first `limit` elements, or all of them when there are fewer.
pub open spec fn take_at_most<A>(s: Seq<A>, limit: int) -> Seq<A> {
    if s.len() <= limit {
        s
    } else {
        s.take(limit)
    }
}

/// The logical positions that a scan with `limit` returns.
pub open spec fn query_hits(s: RingView, keep: spec_fn(Seq<u128>) -> bool, limit: int) -> Seq<int> {
    take_at_most(scan_hits(s, keep, s.scan_len()), limit)
}

/// The positions a scan keeps are increasing and lie below `n`.
pub proof fn lemma_scan_hits_ascending(s: RingView, keep: spec_fn(Seq<u128>) -> bool, n: int)
    ensures
        forall|a: int, b: int|
            0 <= a < b < scan_hits(s, keep, n).len() ==> scan_hits(s, keep, n)[a] < scan_hits(s, keep, n)[b],
        forall|a: int|
            0 <= a < scan_hits(s, keep, n).len() ==> 0 <= #[trigger] scan_hits(s, keep, n)[a] < n,
    decreases n,
{
    if n > 0 {
        lemma_scan_hits_ascending(s, keep, n - 1);
        let prev = scan_hits(s, keep, n - 1);
        if scan_hit(s, keep, n - 1) {
            let cur = prev.push(n - 1);
            assert(scan_hits(s, keep, n) == cur);
            assert forall|a: int, b: int| 0 <= a < b < cur.len() implies cur[a] < cur[b] by {
                assert(cur[a] == prev[a]);
                if b < prev.len() {
                    assert(cur[b] == prev[b]);
                }
            }
            assert forall|a: int| 0 <= a < cur.len() implies 0 <= #[trigger] cur[a] < n by {
                if a < prev.len() {
                    assert(cur[a] == prev[a]);
                }
            }
        }
    }
}

/// Every position a scan keeps holds a live row that `keep` accepts.
pub proof fn lemma_scan_hits_live(s: RingView, keep: spec_fn(Seq<u128>) -> bool, n: int)
    ensures
        forall|a: int|
            0 <= a < scan_hits(s, keep, n).len() ==> scan_hit(s, keep, #[trigger] scan_hits(s, keep, n)[a]),
    decreases n,
{
    if n > 0 {
        lemma_scan_hits_live(s, keep, n - 1);
        let prev = scan_hits(s, keep, n - 1);
        if scan_hit(s, keep, n - 1) {
            let cur = prev.push(n - 1);
            assert(scan_hits(s, keep, n) == cur);
            assert forall|a: int| 0 <= a < cur.len() implies scan_hit(s, keep, #[trigger] cur[a]) by {
                if a < prev.len() {
                    assert(cur[a] == prev[a]);
                }
            }
        }
    }
}

/// Physical slot of logical position `k`.
fn physical_index(store: &OrbyRingBufferSilo, k: usize) -> (r: usize)
    requires
        store.wf(),
        k < store.capacity,
    ensures
        r == store@.physical(k as int),
        r < store.capacity,
{
    if store.cursor > k {
        store.cursor - 1 - k
    } else {
        store.cursor + (store.capacity - 1 - k)
    }
}

/// Reads the row at logical position `k`.
fn logical_row(store: &OrbyRingBufferSilo, k: usize) -> (r: Vec<u128>)
    requires
        store.wf(),
        k < store.capacity,
    ensures
        r@ == store@.logical_row(k as int),
{
    let i = physical_index(store, k);
    let dim = store.ring_buffer_lane_count;
    let mut out: Vec<u128> = Vec::new();
    let mut col: usize = 0;
    while col < dim
        invariant
            store.wf(),
            dim == store.ring_buffer_lane_count,
            i < store.capacity,
            i == store@.physical(k as int),
            col <= dim,
            out@.len() == col,
            forall|e: int| 0 <= e < col ==> #[trigger] out@[e] == store@.lanes[e][i as int],
        decreases dim - col,
    {
        out.push(store.get_cell(col, i));
        col = col + 1;
    }
    assert(out@ =~= store@.logical_row(k as int));
    out
}

/// Whether the scan keeps logical position `j`, with the row read there.
fn hit_at<F: Fn(&[u128]) -> bool>(
    store: &OrbyRingBufferSilo,
    pred: &F,
    j: usize,
    Ghost(keep): Ghost<spec_fn(Seq<u128>) -> bool>,
) -> (r: (bool, Vec<u128>))
    requires
        store.wf(),
        j < store.capacity,
        decides(*pred, keep),
    ensures
        r.0 == scan_hit(store@, keep, j as int),
        r.1@ == store@.logical_row(j as int),
{
    let row = logical_row(store, j);
    let mut zero = true;
    let mut d: usize = 0;
    while d < row.len()
        invariant
            d <= row@.len(),
            zero == forall|e: int| 0 <= e < d ==> row@[e] == 0,
        decreases row@.len() - d,
    {
        if row[d] != 0 {
            zero = false;
        }
        d = d + 1;
    }
    if zero {
        return (false, row);
    }
    let keep_it = pred(row.as_slice());
    (keep_it, row)
}

/// Number of scan positions.
fn scan_len(store: &OrbyRingBufferSilo) -> (r: usize)
    requires
        store.wf(),
    ensures
        r == store@.scan_len(),
        r <= store.capacity,
{
    if store.len == store.capacity {
        store.capacity
    } else {
        store.cursor
    }
}

/// The positions and rows a scan with `limit` returns.
fn collect<F: Fn(&[u128]) -> bool>(
    store: &OrbyRingBufferSilo,
    pred: &F,
    limit: usize,
    Ghost(keep): Ghost<spec_fn(Seq<u128>) -> bool>,
) -> (r: (Vec<usize>, Vec<Vec<u128>>))
    requires
        store.wf(),
        decides(*pred, keep),
    ensures
        r.0@.len() == query_hits(store@, keep, limit as int).len(),
        r.1@.len() == r.0@.len(),
        forall|i: int| 0 <= i < r.0@.len() ==> r.0@[i] == query_hits(store@, keep, limit as int)[i],
        forall|i: int|
            0 <= i < r.1@.len() ==> (#[trigger] r.1@[i])@ == store@.logical_row(
                query_hits(store@, keep, limit as int)[i],
            ),
        forall|i: int| 0 <= i < r.1@.len() ==> scan_hit(store@, keep, query_hits(store@, keep, limit as int)[i]),
        forall|a: int, b: int| 0 <= a < b < r.0@.len() ==> r.0@[a] < r.0@[b],
{
    let n = scan_len(store);
    let ghost s = store@;
    let mut idx: Vec<usize> = Vec::new();
    let mut out: Vec<Vec<u128>> = Vec::new();
    let mut j: usize = 0;
    while j < n
        invariant
            store.wf(),
            s == store@,
            decides(*pred, keep),
            n == s.scan_len(),
            n <= store.capacity,
            j <= n,
            idx@.len() == take_at_most(scan_hits(s, keep, j as int), limit as int).len(),
            out@.len() == idx@.len(),
            forall|i: int|
                0 <= i < idx@.len() ==> idx@[i] == take_at_most(scan_hits(s, keep, j as int), limit as int)[i],
            forall|i: int|
                0 <= i < out@.len() ==> (#[trigger] out@[i])@ == s.logical_row(
                    take_at_most(scan_hits(s, keep, j as int), limit as int)[i],
                ),
        decreases n - j,
    {
        let ghost m = scan_hits(s, keep, j as int);
        let (keep_it, row) = hit_at(store, pred, j, Ghost(keep));
        if keep_it && out.len() < limit {
            out.push(row);
            idx.push(j);
        }
        j = j + 1;
        proof {
            let m2 = scan_hits(s, keep, j as int);
            if m.len() >= limit {
                assert(take_at_most(m2, limit as int) =~= take_at_most(m, limit as int));
            }
        }
    }
    proof {
        lemma_scan_hits_live(s, keep, n as int);
        lemma_scan_hits_ascending(s, keep, n as int);
        let th = take_at_most(scan_hits(s, keep, n as int), limit as int);
        assert forall|i: int| 0 <= i < out@.len() implies scan_hit(s, keep, th[i]) by {
            assert(th[i] == scan_hits(s, keep, n as int)[i]);
        }
        assert forall|a: int, b: int| 0 <= a < b < idx@.len() implies idx@[a] < idx@[b] by {
            assert(th[a] == scan_hits(s, keep, n as int)[a]);
            assert(th[b] == scan_hits(s, keep, n as int)[b]);
        }
    }
    (idx, out)
}

/// Rows that the pure predicate `pred` keeps, newest first, skipping all-zero
/// rows; at most `limit` of them. The scan visits the slots below the cursor,
/// newest first, then, once the ring is full, the slots from the end down to
/// the cursor.
pub fn query_raw<F: Fn(&[u128]) -> bool>(store: &OrbyRingBufferSilo, pred: F, limit: usize) -> (r: Vec<
    Vec<u128>,
>)
    requires
        store.wf(),
        is_row_predicate(pred),
    ensures
        r@.len() == query_hits(store@, row_keeper(pred), limit as int).len(),
        forall|i: int|
            0 <= i < r@.len() ==> (#[trigger] r@[i])@ == store@.logical_row(
                query_hits(store@, row_keeper(pred), limit as int)[i],
            ),
        forall|i: int| 0 <= i < r@.len() ==> !row_is_zero((#[trigger] r@[i])@),
        forall|i: int| 0 <= i < r@.len() ==> keeps(pred, (#[trigger] r@[i])@),
{
    proof {
        lemma_row_predicate_decides(pred);
    }
    let (_idx, rows) = collect(store, &pred, limit, Ghost(row_keeper(pred)));
    rows
}

/// Logical positions of the rows that `query_raw` returns, in increasing order.
pub fn find_indices<F: Fn(&[u128]) -> bool>(store: &OrbyRingBufferSilo, pred: F, limit: usize) -> (r: Vec<
    usize,
>)
    requires
        store.wf(),
        is_row_predicate(pred),
    ensures
        r@.len() == query_hits(store@, row_keeper(pred), limit as int).len(),
        forall|i: int| 0 <= i < r@.len() ==> r@[i] == query_hits(store@, row_keeper(pred), limit as int)[i],
        forall|a: int, b: int| 0 <= a < b < r@.len() ==> r@[a] < r@[b],
{
    proof {
        lemma_row_predicate_decides(pred);
    }
    let (idx, _rows) = collect(store, &pred, limit, Ghost(row_keeper(pred)));
    idx
}

/// The newest `limit` live rows.
pub fn take(store: &OrbyRingBufferSilo, limit: usize) -> (r: Vec<Vec<u128>>)
    requires
        store.wf(),
    ensures
        r@.len() == query_hits(store@, any_row(), limit as int).len(),
        forall|i: int|
            0 <= i < r@.len() ==> (#[trigger] r@[i])@ == store@.logical_row(
                query_hits(store@, any_row(), limit as int)[i],
            ),
{
    let all = |row: &[u128]| -> (b: bool)
        ensures
            b,
        { true };
    let (_idx, rows) = collect(store, &all, limit, Ghost(any_row()));
    rows
}

/// The row at logical index `logical_index` (0 is the newest), or `None` past
/// the live count.
pub fn get_at(store: &OrbyRingBufferSilo, logical_index: usize) -> (r: Option<Vec<u128>>)
    requires
        store.wf(),
    ensures
        logical_index >= store.len <==> r is None,
        r matches Some(row) ==> row@ == store@.logical_row(logical_index as int),
{
    if logical_index >= store.len {
        return None;
    }
    Some(logical_row(store, logical_index))
}

/// Counts the non-zero cells of lane 0 over the written region: the slots below
/// the cursor, or every slot when the cursor has wrapped to 0 with live rows.
pub fn count_active(store: &OrbyRingBufferSilo) -> (r: usize)
    requires
        store.wf(),
    ensures
        r == store@.active_count(),
{
    let limit = if store.cursor == 0 && store.len > 0 {
        store.capacity
    } else {
        store.cursor
    };
    let mut count: usize = 0;
    let mut i: usize = 0;
    while i < limit
        invariant
            store.wf(),
            limit <= store.capacity,
            i <= limit,
            count <= i,
            count == store@.count_nonzero(i as int),
        decreases limit - i,
    {
        if store.get_cell(0, i) != 0 {
            count = count + 1;
        }
        i = i + 1;
    }
    count
}

/// Advances a latest-first scan over logical positions `[from, len)`: returns
/// the first position the pure predicate `pred` keeps, plus one, with its row;
/// or the end of the scan and `None`.
pub fn next_match<F: Fn(&[u128]) -> bool>(store: &OrbyRingBufferSilo, pred: &F, from: usize) -> (r: (
    usize,
    Option<Vec<u128>>,
))
    requires
        store.wf(),
        is_row_predicate(*pred),
    ensures
        r.1 is None ==> r.0 == (if from < store.len { store.len } else { from }) && forall|j: int|
            from <= j < store.len ==> !scan_hit(store@, row_keeper(*pred), j),
        r.1 matches Some(row) ==> {
            &&& from < r.0 <= store.len
            &&& scan_hit(store@, row_keeper(*pred), r.0 - 1)
            &&& row@ == store@.logical_row(r.0 - 1)
            &&& forall|j: int| from <= j < r.0 - 1 ==> !scan_hit(store@, row_keeper(*pred), j)
        },
{
    proof {
        lemma_row_predicate_decides(*pred);
    }
    let ghost keep = row_keeper(*pred);
    let mut j: usize = from;
    while j < store.len
        invariant
            store.wf(),
            decides(*pred, keep),
            keep == row_keeper(*pred),
            from <= j,
            j <= store.len || j == from,
            forall|t: int| from <= t < j ==> !scan_hit(store@, keep, t),
        decreases store.len - j,
    {
        let (keep_it, row) = hit_at(store, pred, j, Ghost(keep));
        if keep_it {
            return (j + 1, Some(row));
        }
        j = j + 1;
    }
    (j, None)
}

} // verus!
