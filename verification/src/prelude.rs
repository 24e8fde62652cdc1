//! What most users of the library need.

pub use crate::digits::Digits;
pub use base_custom::BaseCustom;
