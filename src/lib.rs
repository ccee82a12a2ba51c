//! A layered text-surface compositor: windows of cells placed at absolute
//! positions are painted in order into a sparse buffer, and each refresh
//! reports the positions whose contents changed.

pub mod cell;
pub mod point;
pub mod window;
pub mod container;
pub mod laws;

pub use cell::CellValue;
pub use point::Point;
pub use window::Window;
pub use container::Container;
