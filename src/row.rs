use vstd::prelude::*;

use crate::types::PulseCell;

verus! {

/// A 512-bit SIMD vector of the `wide` crate, used here only for its 64-byte alignment.
#[verifier::external_type_specification]
#[verifier::external_body]
pub struct ExU64x8(wide::u64x8);

/// A row of exactly `N` cells, aligned to a 64-byte cache line.
#[derive(Debug, Clone, Copy)]
pub struct PulseCellPack<const N: usize> {
    pub values: [PulseCell; N],
    /// Zero-sized; gives the row the 64-byte alignment of a 512-bit vector.
    pub align: [wide::u64x8; 0],
}

impl<const N: usize> PulseCellPack<N> {
    /// A row from raw values.
    pub fn new(values: [u128; N]) -> (r: Self)
        ensures
            forall|i: int| 0 <= i < N ==> (#[trigger] r.values@[i]).0 == values@[i],
    {
        let mut cells: [PulseCell; N] = [PulseCell(0); N];
        let mut i: usize = 0;
        while i < N
            invariant
                i <= N,
                forall|j: int| 0 <= j < i ==> (#[trigger] cells@[j]).0 == values@[j],
            decreases N - i,
        {
            cells[i] = PulseCell(values[i]);
            i = i + 1;
        }
        PulseCellPack { values: cells, align: [] }
    }

    /// A row from cells.
    pub fn from_fields(values: [PulseCell; N]) -> (r: Self)
        ensures
            r.values == values,
    {
        PulseCellPack { values, align: [] }
    }

    /// The raw values, in order.
    pub fn to_vec(&self) -> (r: Vec<u128>)
        ensures
            r@.len() == N,
            forall|i: int| 0 <= i < N ==> #[trigger] r@[i] == self.values@[i].0,
    {
        let mut out: Vec<u128> = Vec::new();
        let mut i: usize = 0;
        while i < N
            invariant
                i <= N,
                out@.len() == i,
                forall|j: int| 0 <= j < i ==> #[trigger] out@[j] == self.values@[j].0,
            decreases N - i,
        {
            out.push(self.values[i].0);
            i = i + 1;
        }
        out
    }
}

} // verus!
