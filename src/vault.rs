use vstd::prelude::*;

use crate::aof::{cells_at, cells_bytes};
use crate::codec::{byte_pow, le_bytes, le_value, lemma_byte_pows, lemma_le_value_bound, push_le, read_le};
use crate::error::OrbyError;
use crate::logic::{OrbyRingBufferSilo, RingView};

verus! {

/// Size in bytes of a vault header.
pub const VAULT_HEADER_SIZE: usize = 4096;

/// The vault layout: one file per lane plus a fixed-size header.
pub struct OrbyVault;

/// The fields a vault header records.
#[derive(Debug, Clone, Copy, PartialEq, Eq, Structural)]
pub struct VaultHeader {
    pub capacity: u64,
    pub len: u64,
    pub cursor: u64,
    pub lane_count: u32,
}

/// The sixteen magic bytes `ORBY_DATA_V1_LE ` that open a header.
pub open spec fn magic() -> Seq<u8> {
    seq![0x4Fu8, 0x52, 0x42, 0x59, 0x5F, 0x44, 0x41, 0x54, 0x41, 0x5F, 0x56, 0x31, 0x5F, 0x4C, 0x45, 0x20]
}

/// A header block: magic, capacity, length, cursor and lane count at offsets
/// 0, 16, 24, 32 and 40, zeros up to 4 KiB.
pub open spec fn header_bytes(h: VaultHeader) -> Seq<u8> {
    magic() + le_bytes(h.capacity as nat, 8) + le_bytes(h.len as nat, 8) + le_bytes(h.cursor as nat, 8)
        + le_bytes(h.lane_count as nat, 4) + Seq::new(4052, |i: int| 0u8)
}

/// The header a block holds: `None` when it is shorter than 4 KiB or its magic is wrong.
pub open spec fn header_of(b: Seq<u8>) -> Option<VaultHeader> {
    if b.len() >= 4096 && b.subrange(0, 16) == magic() {
        Some(
            VaultHeader {
                capacity: le_value(b.subrange(16, 24)) as u64,
                len: le_value(b.subrange(24, 32)) as u64,
                cursor: le_value(b.subrange(32, 40)) as u64,
                lane_count: le_value(b.subrange(40, 44)) as u32,
            },
        )
    } else {
        None
    }
}

/// Whether a header describes a store of `capacity` slots and `lane_count`
/// lanes, with a count and cursor inside it.
pub open spec fn header_fits(h: VaultHeader, capacity: int, lane_count: int) -> bool {
    &&& h.capacity == capacity
    &&& h.lane_count == lane_count
    &&& h.len <= h.capacity
    &&& h.cursor < h.capacity
}

/// The bytes of a lane file holding `k` cells read back as cells.
pub open spec fn lane_cells(b: Seq<u8>, k: int) -> Seq<u128> {
    cells_at(b, 0, k)
}

/// A store restored from a header and lane files.
pub open spec fn restored(s: RingView, h: VaultHeader, files: Seq<Seq<u8>>) -> RingView {
    RingView {
        lanes: Seq::new(s.lanes.len(), |d: int| lane_cells(files[d], s.capacity)),
        cursor: h.cursor as int,
        len: h.len as int,
        capacity: s.capacity,
    }
}

impl OrbyVault {
    /// The magic bytes.
    pub fn storage_magic() -> (r: Vec<u8>)
        ensures
            r@ == magic(),
    {
        let r: Vec<u8> = vec![0x4Fu8, 0x52, 0x42, 0x59, 0x5F, 0x44, 0x41, 0x54, 0x41, 0x5F, 0x56, 0x31, 0x5F, 0x4C, 0x45, 0x20];
        assert(r@ =~= magic());
        r
    }

    /// The 4 KiB header block for `h`.
    pub fn encode_header(h: &VaultHeader) -> (r: Vec<u8>)
        ensures
            r@ == header_bytes(*h),
            r@.len() == VAULT_HEADER_SIZE,
    {
        let mut out = OrbyVault::storage_magic();
        push_le(&mut out, h.capacity as u128, 8);
        push_le(&mut out, h.len as u128, 8);
        push_le(&mut out, h.cursor as u128, 8);
        push_le(&mut out, h.lane_count as u128, 4);
        let ghost prefix = out@;
        proof {
            crate::codec::lemma_le_bytes_len(h.capacity as nat, 8);
            crate::codec::lemma_le_bytes_len(h.len as nat, 8);
            crate::codec::lemma_le_bytes_len(h.cursor as nat, 8);
            crate::codec::lemma_le_bytes_len(h.lane_count as nat, 4);
        }
        let mut i: usize = 44;
        while i < VAULT_HEADER_SIZE
            invariant
                44 <= i <= VAULT_HEADER_SIZE,
                prefix.len() == 44,
                out@ == prefix + Seq::new((i - 44) as nat, |j: int| 0u8),
            decreases VAULT_HEADER_SIZE - i,
        {
            out.push(0);
            i = i + 1;
            assert(out@ =~= prefix + Seq::new((i - 44) as nat, |j: int| 0u8));
        }
        out
    }

    /// The header a block holds, when it is at least 4 KiB long and starts with the magic.
    pub fn parse_header(b: &Vec<u8>) -> (r: Option<VaultHeader>)
        ensures
            r == header_of(b@),
    {
        if b.len() < VAULT_HEADER_SIZE {
            return None;
        }
        let m = OrbyVault::storage_magic();
        let mut i: usize = 0;
        while i < 16
            invariant
                i <= 16,
                b@.len() >= 4096,
                m@ == magic(),
                forall|j: int| 0 <= j < i ==> b@[j] == magic()[j],
            decreases 16 - i,
        {
            if b[i] != m[i] {
                assert(b@.subrange(0, 16)[i as int] != magic()[i as int]);
                return None;
            }
            i = i + 1;
        }
        assert(b@.subrange(0, 16) =~= magic());
        let capacity = read_le(b, 16, 8);
        let len = read_le(b, 24, 8);
        let cursor = read_le(b, 32, 8);
        let lane_count = read_le(b, 40, 4);
        proof {
            lemma_byte_pows();
            lemma_le_value_bound(b@.subrange(16, 24));
            lemma_le_value_bound(b@.subrange(24, 32));
            lemma_le_value_bound(b@.subrange(32, 40));
            lemma_le_value_bound(b@.subrange(40, 44));
        }
        Some(
            VaultHeader {
                capacity: capacity as u64,
                len: len as u64,
                cursor: cursor as u64,
                lane_count: lane_count as u32,
            },
        )
    }
}

/// A header block read back gives the header it was written from.
pub proof fn lemma_header_round_trip(h: VaultHeader)
    ensures
        header_of(header_bytes(h)) == Some(h),
{
    let b = header_bytes(h);
    crate::codec::lemma_le_bytes_len(h.capacity as nat, 8);
    crate::codec::lemma_le_bytes_len(h.len as nat, 8);
    crate::codec::lemma_le_bytes_len(h.cursor as nat, 8);
    crate::codec::lemma_le_bytes_len(h.lane_count as nat, 4);
    lemma_byte_pows();
    assert(b.subrange(0, 16) =~= magic());
    assert(b.subrange(16, 24) =~= le_bytes(h.capacity as nat, 8));
    assert(b.subrange(24, 32) =~= le_bytes(h.len as nat, 8));
    assert(b.subrange(32, 40) =~= le_bytes(h.cursor as nat, 8));
    assert(b.subrange(40, 44) =~= le_bytes(h.lane_count as nat, 4));
    crate::codec::lemma_le_round_trip(h.capacity as nat, 8);
    crate::codec::lemma_le_round_trip(h.len as nat, 8);
    crate::codec::lemma_le_round_trip(h.cursor as nat, 8);
    crate::codec::lemma_le_round_trip(h.lane_count as nat, 4);
}

/// The header that describes a store as it stands.
pub fn header_for(store: &OrbyRingBufferSilo) -> (r: VaultHeader)
    requires
        store.wf(),
        store.capacity <= u64::MAX,
        store.ring_buffer_lane_count <= u32::MAX,
    ensures
        r.capacity == store.capacity,
        r.len == store.len,
        r.cursor == store.cursor,
        r.lane_count == store.ring_buffer_lane_count,
{
    VaultHeader {
        capacity: store.capacity as u64,
        len: store.len as u64,
        cursor: store.cursor as u64,
        lane_count: store.ring_buffer_lane_count as u32,
    }
}

/// Checks a header block against the configured sizes, for loading an existing
/// vault: a block that is short, has the wrong magic, disagrees with the
/// configuration or holds a count or cursor outside the capacity is a
/// `ConfigMismatch`.
pub fn validate_header(b: &Vec<u8>, name: &String, capacity: usize, lane_count: usize) -> (r: Result<
    VaultHeader,
    OrbyError,
>)
    ensures
        r is Ok <==> (header_of(b@) matches Some(h) && header_fits(h, capacity as int, lane_count as int)),
        r matches Ok(h) ==> header_of(b@) == Some(h),
        r matches Err(e) ==> e is ConfigMismatch,
{
    match OrbyVault::parse_header(b) {
        None => Err(
            OrbyError::ConfigMismatch {
                name: name.clone(),
                reason: String::from_str("missing or invalid vault header"),
            },
        ),
        Some(h) => {
            if h.capacity as u128 != capacity as u128 || h.lane_count as u128 != lane_count as u128 {
                Err(
                    OrbyError::ConfigMismatch {
                        name: name.clone(),
                        reason: String::from_str("vault capacity or lane count differs from the configuration"),
                    },
                )
            } else if h.len > h.capacity || h.cursor >= h.capacity {
                Err(
                    OrbyError::ConfigMismatch {
                        name: name.clone(),
                        reason: String::from_str("vault header holds a length or cursor outside its capacity"),
                    },
                )
            } else {
                Ok(h)
            }
        },
    }
}

/// Checks a header block for an explicit restore: a wrong magic is an
/// `InvalidFormat`, a size that differs from the configuration a
/// `LaneCountMismatch`.
pub fn check_restore_header(b: &Vec<u8>, name: &String, capacity: usize, lane_count: usize) -> (r: Result<
    VaultHeader,
    OrbyError,
>)
    ensures
        r is Ok <==> (header_of(b@) matches Some(h) && header_fits(h, capacity as int, lane_count as int)),
        r matches Ok(h) ==> header_of(b@) == Some(h),
        header_of(b@) is None ==> (r matches Err(e) && e is InvalidFormat),
        header_of(b@) matches Some(h) && (h.capacity != capacity || h.lane_count != lane_count) ==> (r matches Err(e) && e is LaneCountMismatch),
{
    match OrbyVault::parse_header(b) {
        None => Err(OrbyError::InvalidFormat(String::from_str("invalid magic number in vault header"))),
        Some(h) => {
            if h.capacity as u128 != capacity as u128 || h.lane_count as u128 != lane_count as u128 {
                Err(
                    OrbyError::LaneCountMismatch {
                        pool_name: name.clone(),
                        expected: lane_count,
                        found: h.lane_count as usize,
                    },
                )
            } else if h.len > h.capacity || h.cursor >= h.capacity {
                Err(OrbyError::InvalidFormat(String::from_str("vault header holds a length or cursor outside its capacity")))
            } else {
                Ok(h)
            }
        },
    }
}

/// The bytes of lane `d` as its file holds them.
pub fn lane_bytes(store: &OrbyRingBufferSilo, d: usize) -> (r: Vec<u8>)
    requires
        store.wf(),
        d < store.ring_buffer_lane_count,
    ensures
        r@ == cells_bytes(store@.lanes[d as int]),
{
    let mut out: Vec<u8> = Vec::new();
    let cap = store.capacity;
    let ghost lane = store@.lanes[d as int];
    let mut i: usize = 0;
    while i < cap
        invariant
            store.wf(),
            cap == store.capacity,
            d < store.ring_buffer_lane_count,
            lane == store@.lanes[d as int],
            lane.len() == cap,
            i <= cap,
            out@ == cells_bytes(lane.take(i as int)),
        decreases cap - i,
    {
        let v = store.get_cell(d, i);
        push_le(&mut out, v, 16);
        proof {
            let t = lane.take(i as int + 1);
            assert(t.drop_last() =~= lane.take(i as int));
        }
        i = i + 1;
    }
    assert(lane.take(cap as int) =~= lane);
    out
}

/// Checks an existing vault against the store's configuration and loads it:
/// the header must hold (see `validate_header`), there must be one file per
/// lane, and each file must hold the whole lane (with `strict`, exactly that
/// many bytes). Every mismatch is a `ConfigMismatch` and leaves the store as it was.
pub fn validate_and_load_vault(
    store: &mut OrbyRingBufferSilo,
    header: &Vec<u8>,
    lane_files: &Vec<Vec<u8>>,
    strict: bool,
) -> (r: Result<(), OrbyError>)
    requires
        old(store).wf(),
    ensures
        final(store).wf(),
        crate::ring::same_config(final(store), old(store)),
        r is Ok <==> (header_of(header@) matches Some(h) && header_fits(
            h,
            old(store).capacity as int,
            old(store).ring_buffer_lane_count as int,
        ) && lane_files@.len() == old(store).ring_buffer_lane_count && forall|d: int|
            0 <= d < lane_files@.len() ==> if strict {
                (#[trigger] lane_files@[d])@.len() == 16 * old(store).capacity
            } else {
                lane_files@[d]@.len() >= 16 * old(store).capacity
            }),
        r matches Err(e) ==> e is ConfigMismatch && final(store)@ == old(store)@,
        r is Ok ==> final(store)@ == restored(
            old(store)@,
            header_of(header@)->Some_0,
            lane_files@.map_values(|f: Vec<u8>| f@),
        ),
{
    let h = match validate_header(header, &store.name, store.capacity, store.ring_buffer_lane_count) {
        Ok(h) => h,
        Err(e) => {
            return Err(e);
        },
    };
    let dim = store.ring_buffer_lane_count;
    let cap = store.capacity;
    if lane_files.len() != dim {
        return Err(
            OrbyError::ConfigMismatch {
                name: store.name.clone(),
                reason: String::from_str("lane files missing from the vault"),
            },
        );
    }
    let mut d: usize = 0;
    while d < dim
        invariant
            store.wf(),
            store@ == old(store)@,
            crate::ring::same_config(store, old(store)),
            cap == store.capacity,
            dim == store.ring_buffer_lane_count,
            header_of(header@) == Some(h),
            header_fits(h, cap as int, dim as int),
            d <= dim,
            dim == lane_files@.len(),
            forall|e: int|
                0 <= e < d ==> if strict {
                    (#[trigger] lane_files@[e])@.len() == 16 * cap
                } else {
                    lane_files@[e]@.len() >= 16 * cap
                },
        decreases dim - d,
    {
        let flen = lane_files[d].len();
        let q = flen / 16;
        let ok = if strict {
            flen % 16 == 0 && q == cap
        } else {
            q >= cap
        };
        assert(ok <==> if strict { flen == 16 * cap } else { flen >= 16 * cap }) by (nonlinear_arith)
            requires
                q == flen / 16,
                ok == if strict { flen % 16 == 0 && q == cap } else { q >= cap },
        ;
        if !ok {
            assert(lane_files@[d as int]@.len() == flen);
            return Err(
                OrbyError::ConfigMismatch {
                    name: store.name.clone(),
                    reason: String::from_str("lane file size differs from the capacity"),
                },
            );
        }
        d = d + 1;
    }
    let ghost s0 = store@;
    let ghost files = lane_files@.map_values(|f: Vec<u8>| f@);
    let mut e: usize = 0;
    while e < dim
        invariant
            store.wf(),
            crate::ring::same_config(store, old(store)),
            dim == store.ring_buffer_lane_count,
            cap == store.capacity,
            dim == lane_files@.len(),
            files == lane_files@.map_values(|f: Vec<u8>| f@),
            e <= dim,
            forall|x: int| 0 <= x < dim ==> (#[trigger] lane_files@[x])@.len() >= 16 * cap,
            store@.cursor == s0.cursor,
            store@.len == s0.len,
            store@.capacity == s0.capacity,
            store@.lanes.len() == s0.lanes.len(),
            forall|x: int, j: int|
                0 <= x < dim && 0 <= j < cap ==> #[trigger] store@.lanes[x][j] == if x < e {
                    lane_cells(files[x], cap as int)[j]
                } else {
                    s0.lanes[x][j]
                },
        decreases dim - e,
    {
        let f = &lane_files[e];
        let flen = f.len();
        let mut i: usize = 0;
        let ghost before = store@;
        while i < cap
            invariant
                store.wf(),
                crate::ring::same_config(store, old(store)),
                dim == store.ring_buffer_lane_count,
                cap == store.capacity,
                e < dim,
                flen == f@.len(),
                f@.len() >= 16 * cap,
                *f == lane_files@[e as int],
                files[e as int] == f@,
                i <= cap,
                store@.cursor == before.cursor,
                store@.len == before.len,
                store@.capacity == before.capacity,
                store@.lanes.len() == before.lanes.len(),
                forall|x: int, j: int|
                    0 <= x < dim && 0 <= j < cap ==> #[trigger] store@.lanes[x][j] == if x == e && j < i {
                        lane_cells(files[x], cap as int)[j]
                    } else {
                        before.lanes[x][j]
                    },
            decreases cap - i,
        {
            assert(16 * i + 16 <= 16 * cap) by (nonlinear_arith)
                requires
                    i < cap,
            ;
            let v = read_le(f, 16 * i, 16);
            proof {
                lemma_byte_pows();
                lemma_le_value_bound(f@.subrange(16 * i, 16 * i + 16));
            }
            store.set_cell(e, i, v as u128);
            i = i + 1;
        }
        e = e + 1;
    }
    store.len = h.len as usize;
    store.cursor = h.cursor as usize;
    assert(store@.lanes =~~= restored(s0, h, files).lanes);
    Ok(())
}

/// One positioned write: a byte offset in a lane file and the bytes to put there.
pub struct LaneWrite {
    pub offset: u64,
    pub bytes: Vec<u8>,
}

/// The cells of `values[from..to]` as lane-file bytes.
fn cells_slice_bytes(values: &Vec<u128>, from: usize, to: usize) -> (r: Vec<u8>)
    requires
        from <= to <= values@.len(),
    ensures
        r@ == cells_bytes(values@.subrange(from as int, to as int)),
{
    let mut out: Vec<u8> = Vec::new();
    let mut i: usize = from;
    while i < to
        invariant
            from <= i <= to,
            to <= values@.len(),
            out@ == cells_bytes(values@.subrange(from as int, i as int)),
        decreases to - i,
    {
        push_le(&mut out, values[i], 16);
        proof {
            let t = values@.subrange(from as int, i as int + 1);
            assert(t.drop_last() =~= values@.subrange(from as int, i as int));
        }
        i = i + 1;
    }
    out
}

/// The positioned writes that put `values` into a lane file from slot `start`
/// on, wrapping at the end of the ring: one write when they fit before the
/// end, else one to the end and one from offset 0 for the rest.
pub fn lane_writes(start: usize, capacity: usize, values: &Vec<u128>) -> (r: Vec<LaneWrite>)
    requires
        start < capacity,
        values@.len() <= capacity,
        16 * capacity <= u64::MAX,
    ensures
        start + values@.len() <= capacity ==> r@.len() == 1 && r@[0].offset == 16 * start
            && r@[0].bytes@ == cells_bytes(values@),
        start + values@.len() > capacity ==> r@.len() == 2 && r@[0].offset == 16 * start
            && r@[0].bytes@ == cells_bytes(values@.subrange(0, capacity - start)) && r@[1].offset == 0
            && r@[1].bytes@ == cells_bytes(values@.subrange(capacity - start, values@.len() as int)),
{
    let count = values.len();
    let mut out: Vec<LaneWrite> = Vec::new();
    if count <= capacity - start {
        let bytes = cells_slice_bytes(values, 0, count);
        assert(values@.subrange(0, count as int) =~= values@);
        out.push(LaneWrite { offset: 16 * start as u64, bytes });
    } else {
        let first = capacity - start;
        out.push(LaneWrite { offset: 16 * start as u64, bytes: cells_slice_bytes(values, 0, first) });
        out.push(LaneWrite { offset: 0, bytes: cells_slice_bytes(values, first, count) });
    }
    out
}

/// Cell `col` of every row, zero where a row is shorter: the column a batch
/// writes into one lane file.
pub fn column_of(rows: &Vec<Vec<u128>>, col: usize) -> (r: Vec<u128>)
    ensures
        r@.len() == rows@.len(),
        forall|i: int|
            0 <= i < rows@.len() ==> #[trigger] r@[i] == if col < rows@[i]@.len() {
                rows@[i]@[col as int]
            } else {
                0
            },
{
    let mut out: Vec<u128> = Vec::new();
    let mut i: usize = 0;
    while i < rows.len()
        invariant
            i <= rows@.len(),
            out@.len() == i,
            forall|j: int|
                0 <= j < i ==> #[trigger] out@[j] == if col < rows@[j]@.len() {
                    rows@[j]@[col as int]
                } else {
                    0
                },
        decreases rows@.len() - i,
    {
        let v = if col < rows[i].len() {
            rows[i][col]
        } else {
            0
        };
        out.push(v);
        i = i + 1;
    }
    out
}

/// One step of sliding a lane file down by one cell: copy `byte_count` bytes
/// from `read_offset` to `write_offset`.
#[derive(Debug, Clone, Copy, PartialEq, Eq, Structural)]
pub struct ChunkMove {
    pub read_offset: u64,
    pub write_offset: u64,
    pub byte_count: usize,
}

/// The `j`-th copy of a slide that starts at slot `index`.
pub open spec fn chunk_move(index: int, capacity: int, chunk_cells: int, j: int) -> ChunkMove {
    let start = index + j * chunk_cells;
    let cells = if chunk_cells < capacity - 1 - start {
        chunk_cells
    } else {
        capacity - 1 - start
    };
    ChunkMove {
        read_offset: (16 * (start + 1)) as u64,
        write_offset: (16 * start) as u64,
        byte_count: (16 * cells) as usize,
    }
}

/// Whether `m` is the `j`-th copy of a slide from slot `index`, and that copy
/// starts before the last slot.
pub open spec fn is_chunk_move(index: int, capacity: int, chunk_cells: int, j: int, m: ChunkMove) -> bool {
    index + j * chunk_cells < capacity - 1 && m == chunk_move(index, capacity, chunk_cells, j)
}

/// The copies that slide the cells after slot `index` one slot down, at most
/// `chunk_cells` cells at a time, in increasing order, until the last slot;
/// none when `index` is the last slot or past it. The last slot is zeroed
/// separately.
pub fn compaction_moves(index: usize, capacity: usize, chunk_cells: usize) -> (r: Vec<ChunkMove>)
    requires
        chunk_cells >= 1,
        capacity >= 1,
        16 * capacity <= u64::MAX,
        16 * capacity <= usize::MAX,
    ensures
        index + 1 >= capacity ==> r@.len() == 0,
        forall|j: int|
            0 <= j < r@.len() ==> is_chunk_move(index as int, capacity as int, chunk_cells as int, j, #[trigger] r@[j]),
        index + 1 < capacity ==> index + r@.len() * chunk_cells >= capacity - 1,
{
    let mut out: Vec<ChunkMove> = Vec::new();
    if index >= capacity - 1 {
        return out;
    }
    let last = capacity - 1;
    let mut current: usize = index;
    while current < last
        invariant
            index < last,
            last == capacity - 1,
            chunk_cells >= 1,
            16 * capacity <= u64::MAX,
            16 * capacity <= usize::MAX,
            index <= current <= last,
            current == last ==> index + out@.len() * chunk_cells >= last,
            current < last ==> current == index + out@.len() * chunk_cells,
            forall|j: int|
                0 <= j < out@.len() ==> is_chunk_move(index as int, capacity as int, chunk_cells as int, j, #[trigger] out@[j]),
        decreases last - current,
    {
        let cells = if chunk_cells < last - current {
            chunk_cells
        } else {
            last - current
        };
        let ghost j = out@.len() as int;
        let m = ChunkMove {
            read_offset: 16 * (current as u64 + 1),
            write_offset: 16 * current as u64,
            byte_count: 16 * cells,
        };
        assert(m == chunk_move(index as int, capacity as int, chunk_cells as int, j));
        let ghost before = out@;
        out.push(m);
        assert forall|i: int| 0 <= i < out@.len() implies is_chunk_move(index as int, capacity as int, chunk_cells as int, i, #[trigger] out@[i]) by {
            if i < j {
                assert(out@[i] == before[i]);
            } else {
                assert(i == j);
                assert(out@[i] == m);
            }
        }
        if cells == last - current {
            assert(index + (j + 1) * chunk_cells >= last) by (nonlinear_arith)
                requires
                    current == index + j * chunk_cells,
                    cells <= chunk_cells,
                    cells == last - current,
            ;
            current = last;
        } else {
            assert(index + (j + 1) * chunk_cells == current + chunk_cells) by (nonlinear_arith)
                requires
                    current == index + j * chunk_cells,
            ;
            current = current + cells;
        }
    }
    out
}

/// The two header writes that record a new count and cursor: eight bytes each
/// at offsets 24 and 32.
pub fn header_update(len: u64, cursor: u64) -> (r: Vec<LaneWrite>)
    ensures
        r@.len() == 2,
        r@[0].offset == 24 && r@[0].bytes@ == le_bytes(len as nat, 8),
        r@[1].offset == 32 && r@[1].bytes@ == le_bytes(cursor as nat, 8),
{
    let mut a: Vec<u8> = Vec::new();
    push_le(&mut a, len as u128, 8);
    let mut b: Vec<u8> = Vec::new();
    push_le(&mut b, cursor as u128, 8);
    assert(a@ =~= le_bytes(len as nat, 8));
    assert(b@ =~= le_bytes(cursor as nat, 8));
    let mut out: Vec<LaneWrite> = Vec::new();
    out.push(LaneWrite { offset: 24, bytes: a });
    out.push(LaneWrite { offset: 32, bytes: b });
    out
}

} // verus!
