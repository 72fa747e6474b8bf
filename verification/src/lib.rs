//! An authorization decision engine.
//!
//! A [`policy::Policy`] is an ordered collection of [`statement::Statement`]s,
//! each pairing an [`effect::Effect`] with the identities, actions and
//! resource patterns it governs. Evaluating a [`request::Request`] against a
//! policy yields the least permissive effect contributed by any matching
//! statement, and `Deny` when no statement matches.

pub mod codec;
pub mod effect;
pub mod policy;
pub mod request;
pub mod statement;
