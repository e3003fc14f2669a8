//! Queues and locks for handing jobs between threads, with their contracts proved.

pub mod backoff;
pub mod blocking;
pub mod channel;
pub mod chunk;
pub mod co_laws;
pub mod co_model;
pub mod co_proof;
pub mod co_queue;
pub mod deadlock;
pub mod hash_table;
pub mod interleave;
pub mod lot;
pub mod mutex;
pub mod own_ref;
pub mod parker;
pub mod parking;
pub mod raw_laws;
pub mod raw_model;
pub mod raw_mutex;
pub mod raw_proof;
pub mod shift_guard;
pub mod shift_laws;
pub mod shift_model;
pub mod shift_proof;
pub mod shift_queue;
pub mod spin_wait;
pub mod stream;
pub mod table_gate;
pub mod table_laws;
pub mod word_laws;
pub mod word_lock;
pub mod word_model;
pub mod word_proof;

pub use blocking::BlockingQueue;
pub use co_queue::CoQueue;
pub use raw_mutex::{MapMootexGuard, Mootex, MootexGuard};
pub use shift_queue::ShiftQueue;
