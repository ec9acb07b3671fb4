//! Per-key summaries of fixed-point readings.
//!
//! The input is a buffer of `key;value` lines, the value a numeral with one
//! fractional digit.  For every key the library finds the smallest reading,
//! the mean and the largest reading, and writes them out in the order of the
//! keys.  Readings are integers scaled by ten throughout, so nothing is
//! rounded before the mean is formatted.
//!
//! * [`numeral`]: the grammar of a reading, parsing and formatting.
//! * [`records`]: how a buffer splits into lines, and a line into key and
//!   reading.
//! * [`stats`]: the accumulator of one key.
//! * [`aggregate`]: what aggregation computes, as mathematics.
//! * [`table`]: the mapping from keys to accumulators.
//! * [`chunk`]: aggregating one byte range.
//! * [`segment`]: cutting a buffer into line-aligned ranges.
//! * [`merge`]: combining the mappings of several ranges.
//! * [`order`]: the order of keys, and sorting by it.
//! * [`report`]: the text of the result.
//! * [`pipeline`]: all of it, on one buffer.
//! * [`stream`]: aggregating a buffer that arrives block by block.

pub mod aggregate;
pub mod chunk;
pub mod merge;
pub mod numeral;
pub mod order;
pub mod pipeline;
pub mod records;
pub mod report;
pub mod segment;
pub mod stats;
pub mod stream;
pub mod table;
