//! What holds of the library as a whole.
pub mod counting;
pub mod exact;
pub mod forms;
pub mod hashing;
pub mod matching;
pub mod meaning;
pub mod naming;
pub mod numbering;
pub mod order;
pub mod requests;
pub mod rewriting;
pub mod spelling;
pub mod tables;
pub mod views;
pub mod walks;
