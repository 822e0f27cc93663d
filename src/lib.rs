//! Counting stones that change with every blink.
//!
//! A stone carries a non-negative number. On each blink a stone engraved
//! with 0 becomes a stone engraved with 1; a stone whose number has an even
//! count of decimal digits splits into two stones (the left and the right
//! half of its digits); any other stone is replaced by one engraved with its
//! number times 2024. The library counts how many stones a starting row
//! turns into after a number of blinks, without building the row, by
//! memoizing counts keyed by (blinks left, number).

pub mod blink;
