//! Organization membership and collection access control engine for a
//! multi-tenant credential vault.
//!
//! The engine owns organizations, memberships (role, status, access mode),
//! collections, per-user collection grants, and the item/collection
//! associations produced by bulk import. Every operation states its effect
//! on the store in its contract, and the store-wide invariants (unique
//! identifiers, at least one owner per organization, at most one grant per
//! collection/user pair) are proved to hold after every operation.

pub mod types;
pub mod seqs;
pub mod engine;
pub mod orgs;
pub mod members;
pub mod invites;
pub mod collections;
pub mod imports;
pub mod laws;
