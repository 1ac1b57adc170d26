//! Two composable building blocks: an auto-growing array that maps integer
//! indices to values (unvisited indices read as a default value), and an
//! unbounded bit set packed into fixed-width chunks stored in such an array.

mod bit_set;
mod default_vec;

pub use bit_set::BitSet;
pub use default_vec::ConstDefault;
pub use default_vec::DefaultVec;
