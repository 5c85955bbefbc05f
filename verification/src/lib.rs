//! The decision core of a home-lighting controller.
//!
//! Scene labels carry human-authored time windows such as
//! `"Evening (18:23h-sunset)"`. This crate parses those windows into
//! minute-of-day ranges, linearizes overlapping schedules into a
//! non-overlapping timeline with deterministic tie-breaking, and debounces
//! noisy device reachability signals into scene activation and group
//! shutoff decisions. It never talks to the bridge itself: a caller feeds
//! it snapshots and plain values, and carries its decisions out.

pub mod reachability;
pub mod schedule;
pub mod time_range_parser;

use vstd::prelude::*;

verus! {

/// Converts a number of hours to minutes since midnight.
pub fn h(hours: u32) -> (r: u32)
    requires
        hours * 60 <= u32::MAX,
    ensures
        r == hours * 60,
{
    hours * 60
}

} // verus!
