//! Random Chinese character selection over two small reference tables: a
//! level table and a stroke-count table, each mapping a small integer key to
//! the characters filed under it.
pub mod data;
pub mod laws;
pub mod ranges;
pub mod selection;
pub mod text;

pub use crate::data::Data;
pub use crate::selection::random_zh;
pub use crate::selection::RandomZhOptions;
pub use crate::ranges::parse_range;
