//! A recursive, content-addressed provenance tree. Each node (a
//! [`mycelium::Mycelium`]) carries typed attributes — the identity and
//! moment of its origin, a signature, a last-update moment — and an
//! ordered collection of children, each either a fully materialized node
//! or a lightweight reference to a pruned one. The tree can be hashed
//! into a Merkle-style digest, signed and verified through a pluggable
//! capability ([`spore::Spore`]), searched to a bounded depth, and pruned
//! so that each origin identity keeps only its most recently updated
//! subtree.

pub mod attributes;
pub mod clock;
pub mod digest;
pub mod errors;
pub mod mycelium;
pub mod spore;
