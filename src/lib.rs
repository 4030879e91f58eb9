pub mod aof;
pub mod codec;
pub mod error;
pub mod laws;
pub mod logic;
pub mod replay;
pub mod ring;
pub mod row;
pub mod scan;
pub mod types;
pub mod utils;
pub mod vault;

pub use error::OrbyError;
pub use logic::{OrbyRingBuffer, OrbyRingBufferSilo};
pub use row::PulseCellPack;
pub use types::{LogicMode, PulseCell, SaveMode};
