//! Numbers written in a digit alphabet of the caller's choosing.
//!
//! A [`Digits`] value is a string of digits over an alphabet of symbols. The
//! library adds, multiplies, raises to powers and compares such numbers
//! exactly, whatever their length, writes them in other alphabets, and steps
//! through the numbers in which no symbol is repeated more often in a row
//! than a given limit allows.
//!
//! - [`digits`]: the number type, how it is made and what it shows.
//! - [`calc`]: sums, products, powers, the number before and after.
//! - [`convert`]: numbers from integers and from numbers of other alphabets.
//! - [`ordering`] and [`operators`]: `==`, `<`, `+`, `*` and `^`.
//! - [`adjacent`]: runs of a repeated digit and stepping past them, with the
//!   generator of the steps in [`step_map`] and the reasons why stepping
//!   finds the next number in [`stepping`].
//! - [`carry_add`]: the addition of two digits under a cap.
//! - [`radices`]: the alphabets of the common bases.
//! - [`places`]: what a string of digits stands for, in specification.
//! - [`laws`]: what holds of the operations, whatever the numbers are.
//! - [`alphabet`] and [`front`]: what is taken on trust of the crates
//!   `base_custom` and `array_tool`.

pub mod adjacent;
pub mod alphabet;
mod arith;
pub mod calc;
pub mod carry_add;
pub mod convert;
pub mod digits;
pub mod front;
pub mod laws;
pub mod operators;
pub mod ordering;
pub mod places;
pub mod prelude;
pub mod radices;
pub mod reverse;
pub mod step_map;
pub mod stepping;

pub use crate::convert::Into;
pub use crate::digits::Digits;
pub use crate::radices::Radix;
pub use crate::reverse::Reverse;
pub use crate::step_map::StepMap;
pub use base_custom::BaseCustom;
