use vstd::prelude::*;

use crate::errors::SporeError;

verus! {

/// Stable public identifier derived from a capability.
pub type Sporeprint = String;

/// A signing/verification capability that stamps an identity on the
/// provenance nodes it creates.
///
/// The tree operations depend on this interface alone; a concrete keypair
/// implementation lives outside the verified core. A verification-only
/// instance (resolved from an identifier, holding no private material) may
/// fail `sign` but must still support `verify`.
pub trait Spore: Sized {
    /// Generates a fresh capability.
    fn new() -> Self;

    /// Returns the capability's identifier.
    fn sporeprint(&self) -> Sporeprint;

    /// Signs the given data.
    fn sign(&self, data: &[u8]) -> Result<Vec<u8>, SporeError>;

    /// Verifies a signature over the given data.
    fn verify(&self, data: &[u8], signature: &[u8]) -> Result<(), SporeError>;

    /// Reconstructs a verification-capable instance from an identifier alone.
    fn resolve(sporeprint: &Sporeprint) -> Result<Self, SporeError>;
}

} // verus!
