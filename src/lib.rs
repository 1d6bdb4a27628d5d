//! Shard enumeration, retry policy, delivery order and record encoding for
//! downloading a dataset that a remote service splits into 1,048,576 ranges,
//! one per 5-digit hexadecimal shard key.
//!
//! - `ranges`: the shard keys, in enumeration order.
//! - `service`: the per-request retry policy.
//! - `schedule`: the launch window and the buffer that keeps shard order.
//! - `lines`: splitting a range body into record lines.
//! - `decode`: decoding a line into a 20-byte hash and a count.
//! - `output`: the text and binary forms that a sink writes.
use vstd::prelude::*;

pub mod decode;
pub mod lines;
pub mod output;
pub mod ranges;
pub mod schedule;
pub mod service;

verus! {

} // verus!
