//! Distance-2 coloring of a sparse matrix pattern, and the seed vectors that
//! let columns of one color be probed together.
pub mod coloring;
pub mod csr;
pub mod distance2;
pub mod greedy;
pub mod hashed;
pub mod seeds;

pub use coloring::distance2_color_and_seeds;
pub use csr::{build_adjacency, check_csr, ArgumentProblem, ColoringError};
pub use distance2::{distance2_adjacency, sorted_distinct};
pub use greedy::greedy_color;
pub use seeds::seeds_from_colors;
