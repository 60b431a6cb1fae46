//! An in-memory, append-only temporal store for tagged scalar values.
//!
//! Every variable keeps, for each value it ever held, the inclusive ranges of
//! logical time during which that value was in effect. Channels group
//! variables, and predicate queries correlate one variable's matching ranges
//! with the values that every other variable held at overlapping positions.

pub mod value;
pub mod interval;
pub mod compared;
pub mod memory_machine;
pub mod print_of_state;
pub mod expr;
pub mod memory_table;
pub mod memory_channel;
pub mod query_resolver;
