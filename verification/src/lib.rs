//! A streaming lottery: named prize positions filled from a fixed-capacity
//! reservoir sample of a stream of candidates.

pub mod builder;
pub mod lottery;
pub mod pool;
pub mod pos;
pub mod sampler;

pub use crate::builder::{BuildChoosenError, ChoosenBuilder};
pub use crate::lottery::{Choosen, ChoosenError};
pub use crate::pos::{Position, PositionType, PositionTypeError};
pub use crate::sampler::{Reservoir, ReservoirSampler};
