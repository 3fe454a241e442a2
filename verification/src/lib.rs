//! Run generation for an external merge sort, by replacement selection.
//!
//! The input is a stream of records of 100 bytes: a key of 10 bytes, compared
//! as an unsigned byte string, and a payload of 90 bytes. The output is a set
//! of runs, each in ascending order of the keys, that together hold the
//! records of the input. A queue of bounded size decides which record leaves
//! next; a record that arrives too late for the run being written waits for
//! the next one.
//!
//! * `record`: records, queued items and their order.
//! * `heap`: the priority queue.
//! * `engine`: the decisions, as a state machine that a driver feeds with
//!   records and asks for the next step. Its queue never holds more records
//!   than its capacity.
//! * `io`: the block-wise reader and writer, record and frame formats, and the
//!   names of the run files.
//! * `replacement_selection`: what the runs of an input are, and the driver
//!   that makes them of an input held in memory.
//! * `theorems`, `monotone`: what holds of the runs of every input.

pub mod engine;
pub mod heap;
pub mod io;
pub mod monotone;
pub mod record;
pub mod replacement_selection;
pub mod theorems;
