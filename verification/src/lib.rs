//! Derives an interrupt-dispatch framework for a microcontroller from the
//! interrupt lines of a hardware description.
//!
//! The lines of a device are brought into canonical form ([`normalize`]) and
//! turned into a capability contract, a table of function pointers, a runtime
//! handle and the entry points of the interrupt vectors ([`synthesis`]), in
//! one of three ways ([`strategy`]). [`generate::run`] does all of it in one
//! step, and [`laws`] states what holds of the result on every input.

pub mod descriptor;
pub mod generate;
pub mod laws;
pub mod normalize;
pub mod strategy;
pub mod synthesis;
pub mod text;
pub mod utils;

pub use descriptor::{InterruptLine, Peripheral};
pub use generate::run;
pub use normalize::NormalizedInterrupt;
pub use strategy::{valid_version, Strategy};
pub use synthesis::{Framework, SynthesisError};
pub use utils::{starts_with_case_insensitive, InPlace, StringTrimInPlace};
