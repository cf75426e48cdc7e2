//! Spaced-repetition scheduling of short text items ("sentences").
//!
//! The crate holds the review-scheduling algorithm, an in-memory review
//! store with the contract the scheduler depends on, and the bundle
//! workflows: bundle generation and the atomic bundle-answering
//! transaction.  Ease factors are held in hundredths (`250` stands for a
//! neutral factor of two and a half) and every timestamp is a count of
//! minutes, so that all scheduling arithmetic is exact integer
//! arithmetic.

pub mod score;
pub mod sentence;
pub mod store;
pub mod transaction;
pub mod workflow;
