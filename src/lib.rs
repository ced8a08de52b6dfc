//! A terminal directory browser's core: an in-memory mirror of a directory tree with sorted,
//! uniquely named entries; name queries over it; a command state machine that asks to
//! disambiguate or to confirm before it acts, and hands filesystem work to its caller; and
//! scrolled, clipped views of styled lines.

pub mod render;
pub mod state;
pub mod text;
pub mod tree;
pub mod view;
