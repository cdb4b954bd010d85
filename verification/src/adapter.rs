//! What the GPU backend reports about the wgpu adapter it was given.
use vstd::prelude::*;

verus! {

/// PCI vendor id of NVIDIA.
pub const NVIDIA_VENDOR_ID: u32 = 0x10DE;

/// The note logged about the high-performance adapter.
#[derive(Debug, Clone, Copy, PartialEq, Eq, Structural)]
pub enum AdapterNote {
    /// An integrated GPU that is not NVIDIA's: warn that the discrete GPU
    /// was probably passed over.
    IntegratedWarning,
    /// NVIDIA's discrete (or other) GPU: confirm it.
    NvidiaConfirmed,
    /// Anything else: nothing to add.
    Nothing,
}

/// The note for an adapter of PCI vendor `vendor`, integrated or not: a
/// warning for a non-NVIDIA integrated GPU, a confirmation for any NVIDIA
/// one, nothing otherwise.
pub fn adapter_note(vendor: u32, integrated: bool) -> (r: AdapterNote)
    ensures
        r == (if vendor != NVIDIA_VENDOR_ID && integrated {
            AdapterNote::IntegratedWarning
        } else if vendor == NVIDIA_VENDOR_ID {
            AdapterNote::NvidiaConfirmed
        } else {
            AdapterNote::Nothing
        }),
{
    if vendor != NVIDIA_VENDOR_ID && integrated {
        AdapterNote::IntegratedWarning
    } else if vendor == NVIDIA_VENDOR_ID {
        AdapterNote::NvidiaConfirmed
    } else {
        AdapterNote::Nothing
    }
}

} // verus!
