//! A thin, verified access layer over a sorted key-value store: point
//! writes, point reads, and directional (forward or reverse) range scans
//! driven by a caller-supplied visitor with an early-termination signal.

pub mod atom;
pub mod errs;
pub mod laws;
pub mod model;
pub mod order;

pub use atom::AtomDB;
pub use atom::QueryIter;
pub use errs::OpenError;
pub use errs::ReadError;
pub use errs::WriteError;
pub use order::lex_le;
pub use order::lex_lt;
