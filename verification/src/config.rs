//! Flat configuration values handed to the transform dispatcher.

use vstd::prelude::*;

verus! {

/// Configuration of a batched NTT/INTT/LDE call.
#[derive(Clone, Copy, Debug)]
pub struct NTTConfig {
    /// Number of equally sized rows transformed by one call.
    pub batches: usize,
    /// The input buffer is expected to be device-resident.
    pub are_inputs_on_device: bool,
    /// The output buffer is expected to be device-resident.
    pub are_outputs_on_device: bool,
    /// Evaluate over a coset of the base domain; requires a generator
    /// registered by `init_coset` for the domain size.
    pub with_coset: bool,
    /// log2 of the blow-up factor of a low-degree extension.
    pub extension_rate_bits: usize,
}

impl Default for NTTConfig {
    /// One batch, host-resident buffers, base domain, no blow-up.
    fn default() -> (c: NTTConfig)
        ensures
            c.batches == 1,
            !c.are_inputs_on_device,
            !c.are_outputs_on_device,
            !c.with_coset,
            c.extension_rate_bits == 0,
    {
        NTTConfig {
            batches: 1,
            are_inputs_on_device: false,
            are_outputs_on_device: false,
            with_coset: false,
            extension_rate_bits: 0,
        }
    }
}

/// Configuration of a bit-reversed batched transpose.
#[derive(Clone, Copy, Debug)]
pub struct TransposeConfig {
    /// Number of rows in the input matrix.
    pub batches: usize,
    /// The input buffer is expected to be device-resident.
    pub are_inputs_on_device: bool,
    /// The output buffer is expected to be device-resident.
    pub are_outputs_on_device: bool,
}

impl Default for TransposeConfig {
    /// One row, host-resident buffers.
    fn default() -> (c: TransposeConfig)
        ensures
            c.batches == 1,
            !c.are_inputs_on_device,
            !c.are_outputs_on_device,
    {
        TransposeConfig { batches: 1, are_inputs_on_device: false, are_outputs_on_device: false }
    }
}

} // verus!
