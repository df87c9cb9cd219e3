//! Object memory management for a dynamic-language runtime: a reference
//! counter paired with a synchronous (Bacon–Rajan) cycle collector over an
//! arena of object handles, plus the value types around it (an ordered
//! dictionary, buffer layouts, pause and trigger bookkeeping).
pub mod buffer;
pub mod collector;
pub mod count;
pub mod dict;
pub mod gc;
pub mod header;
pub mod mem_balance;
pub mod pause;
mod seqs;
pub mod status;
pub mod trace;
