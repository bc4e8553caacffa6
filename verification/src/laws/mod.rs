//! What holds of tries and of their proofs as a whole.

pub mod changing;
pub mod contents;
pub mod editing;
pub mod forking;
pub mod hashing;
pub mod inserting;
pub mod insertion;
pub mod loading;
pub mod nodes;
pub mod numbers;
pub mod ordering;
pub mod places;
pub mod proving;
pub mod reading;
pub mod runs;
pub mod seeking;
pub mod storing;
pub mod texts;
pub mod verifying;
pub mod views;
