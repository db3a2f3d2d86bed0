//! From the peripherals of a device to its dispatch framework, in one step.

use crate::descriptor::{all_lines, interrupt_lines, peripheral_models, Peripheral};
use crate::normalize::{normalize, normalized};
use crate::strategy::Strategy;
use crate::synthesis::{is_synthesis, synthesize, Framework, SynthesisError};
use vstd::prelude::*;

verus! {

/// Derives the dispatch framework of a device under `strategy`: gathers the
/// interrupt lines of its peripherals in the order of the description,
/// normalizes them and synthesizes the framework. Two lines that are not
/// reserved and get the same capability name are an error, and nothing is
/// made then.
pub fn run(peripherals: &Vec<Peripheral>, strategy: Strategy) -> (r: Result<
    Framework,
    SynthesisError,
>)
    ensures
        is_synthesis(r, normalized(all_lines(peripheral_models(peripherals@)), strategy), strategy),
        r matches Ok(made) ==> made@.wf(),
{
    let lines = interrupt_lines(peripherals);
    let interrupts = normalize(&lines, strategy);
    synthesize(&interrupts, strategy)
}

} // verus!
