//! Counting Unicode scalar values in a byte stream that arrives in chunks.
//!
//! `utf8` holds the model of what is counted and a verified scanner over one
//! buffer; `counter` holds the streaming counter, which carries an undecided
//! tail of at most three bytes from one chunk to the next; `mode` reads the
//! option word that chooses which counts a run reports.
pub mod counter;
pub mod mode;
pub mod utf8;
