use vstd::prelude::*;

verus! {

/// Size in bytes of the fixed header block that precedes persisted data.
pub const HEADER_SIZE: u64 = 4096;

/// Directory used for a vault when the caller gives none.
pub const DEFAULT_VAULT_DIR: &'static str = "vault_data";

/// Size in bytes of one stored cell.
pub const PULSE_SIZE: usize = 16;

/// Storage strategy of an engine.
#[derive(Debug, Clone, PartialEq, Eq)]
pub enum SaveMode {
    /// In-memory only. No persistence.
    MemoryOnly,
    /// Per-lane files under a directory (the default directory when `None`).
    Vault(Option<String>),
}

/// How rows are placed in the store.
#[derive(Debug, Clone, Copy, PartialEq, Eq, Structural)]
pub enum LogicMode {
    RingBuffer,
}

impl LogicMode {
    /// The tag byte written to disk for this mode.
    pub fn as_u8(&self) -> (r: u8)
        ensures
            *self == LogicMode::RingBuffer ==> r == 0,
    {
        match self {
            LogicMode::RingBuffer => 0,
        }
    }

    /// Reads a tag byte back; unknown tags give `None`.
    pub fn from_u8(v: u8) -> (r: Option<Self>)
        ensures
            v == 0 <==> r == Some(LogicMode::RingBuffer),
            v != 0 <==> r is None,
    {
        match v {
            0 => Some(LogicMode::RingBuffer),
            _ => None,
        }
    }
}

/// The value with its lower 8 bits cleared.
pub open spec fn data_bits(v: u128) -> u128 {
    (v >> 8u128) << 8u128
}

/// Bits 4..8 of a value.
pub open spec fn lane_bits(v: u128) -> u128 {
    (v >> 4u128) & 0x0Fu128
}

/// Bits 0..4 of a value.
pub open spec fn cycle_bits(v: u128) -> u128 {
    v & 0x0Fu128
}

/// The smallest stored unit: one 128-bit value. Zero marks an empty slot.
#[derive(Debug, Clone, Copy, PartialEq, Eq, Hash, Structural)]
pub struct PulseCell(pub u128);

impl PulseCell {
    /// Wraps a raw value.
    pub fn new(val: u128) -> (r: Self)
        ensures
            r.0 == val,
    {
        PulseCell(val)
    }

    /// Builds a cell from its parts: the upper 120 bits of `data`, then four bits
    /// of `lane_id`, then four bits of `commit_cycle`.
    pub fn pack(data: u128, lane_id: u8, commit_cycle: u8) -> (r: Self)
        ensures
            data_bits(r.0) == data_bits(data),
            lane_bits(r.0) == (lane_id & 0x0F) as u128,
            cycle_bits(r.0) == (commit_cycle & 0x0F) as u128,
    {
        let mask_data: u128 = (data >> 8u128) << 8u128;
        let mask_lane: u128 = ((lane_id & 0x0F) as u128) << 4u128;
        let mask_cycle: u128 = (commit_cycle & 0x0F) as u128;
        assert((lane_id & 0x0F) < 16 && (commit_cycle & 0x0F) < 16) by (bit_vector);
        let l: u128 = (lane_id & 0x0F) as u128;
        let c: u128 = (commit_cycle & 0x0F) as u128;
        let v: u128 = mask_data | mask_lane | mask_cycle;
        assert(data_bits(v) == data_bits(data) && lane_bits(v) == l && cycle_bits(v) == c) by (bit_vector)
            requires
                mask_data == (data >> 8u128) << 8u128,
                mask_lane == l << 4u128,
                mask_cycle == c,
                l < 16,
                c < 16,
                v == mask_data | mask_lane | mask_cycle,
        ;
        PulseCell(v)
    }

    /// The raw value.
    pub fn as_u128(&self) -> (r: u128)
        ensures
            r == self.0,
    {
        self.0
    }

    /// The value with the lane and cycle bits cleared.
    pub fn data(&self) -> (r: u128)
        ensures
            r == data_bits(self.0),
    {
        (self.0 >> 8u128) << 8u128
    }

    /// The four lane bits.
    pub fn lane_id(&self) -> (r: u8)
        ensures
            r as u128 == lane_bits(self.0),
    {
        let raw: u128 = self.0;
        let v: u128 = (raw >> 4u128) & 0x0Fu128;
        assert(v < 16) by (bit_vector)
            requires
                v == (raw >> 4u128) & 0x0Fu128,
        ;
        v as u8
    }

    /// The four commit-cycle bits.
    pub fn commit_cycle(&self) -> (r: u8)
        ensures
            r as u128 == cycle_bits(self.0),
    {
        let raw: u128 = self.0;
        let v: u128 = raw & 0x0Fu128;
        assert(v < 16) by (bit_vector)
            requires
                v == raw & 0x0Fu128,
        ;
        v as u8
    }

    /// The same cell with its commit-cycle bits replaced by the low four bits of `cycle`.
    pub fn with_commit_cycle(&self, cycle: u8) -> (r: Self)
        ensures
            data_bits(r.0) == data_bits(self.0),
            lane_bits(r.0) == lane_bits(self.0),
            cycle_bits(r.0) == (cycle & 0x0F) as u128,
    {
        let mask: u128 = 0xFFFF_FFFF_FFFF_FFFF_FFFF_FFFF_FFFF_FFF0u128;
        assert((cycle & 0x0F) < 16) by (bit_vector);
        let c: u128 = (cycle & 0x0F) as u128;
        let old_v: u128 = self.0;
        let v: u128 = (old_v & mask) | c;
        assert(data_bits(v) == data_bits(old_v) && lane_bits(v) == lane_bits(old_v) && cycle_bits(v) == c)
            by (bit_vector)
            requires
                mask == 0xFFFF_FFFF_FFFF_FFFF_FFFF_FFFF_FFFF_FFF0u128,
                c < 16,
                v == (old_v & mask) | c,
        ;
        PulseCell(v)
    }
}

impl From<u128> for PulseCell {
    fn from(v: u128) -> (r: Self) {
        PulseCell(v)
    }
}

impl vstd::std_specs::convert::FromSpecImpl<u128> for PulseCell {
    open spec fn obeys_from_spec() -> bool {
        true
    }

    open spec fn from_spec(v: u128) -> Self {
        PulseCell(v)
    }
}

impl From<PulseCell> for u128 {
    fn from(b: PulseCell) -> (r: Self) {
        b.0
    }
}

impl vstd::std_specs::convert::FromSpecImpl<PulseCell> for u128 {
    open spec fn obeys_from_spec() -> bool {
        true
    }

    open spec fn from_spec(b: PulseCell) -> Self {
        b.0
    }
}

} // verus!
