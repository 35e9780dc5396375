//! The bookkeeping of a task runtime, proved: a binary heap that reports
//! where its elements come to rest, the states that tasks go through between
//! spawn and completion, one-shot values for handing a result from one
//! runtime to another, and joins of many results.
//!
//! Nothing here polls a future or starts a thread. Every type is plain data
//! with a model, and every method says what it does to that model.

pub mod async_map;
pub mod async_value;
pub mod error;
pub mod ext_heap;
pub mod index_slotmap;
pub mod iter;
pub mod notice;
pub mod order;
pub mod scheduler;
pub mod shape;
pub mod task_id;
mod vec_ext;
pub mod worker;
