//! Defaults and bounds of the tool parameters.
use vstd::prelude::*;

verus! {

pub open spec fn clamp_spec(v: u32, lo: u32, hi: u32) -> u32 {
    if v < lo {
        lo
    } else if v > hi {
        hi
    } else {
        v
    }
}

/// Maximum search results: 10 unless given, kept within 1..=50.
pub fn search_max_results(max_results: Option<u32>) -> (n: u32)
    ensures
        n == clamp_spec(
            match max_results {
                Some(m) => m,
                None => 10,
            },
            1,
            50,
        ),
{
    let m = match max_results {
        Some(m) => m,
        None => 10,
    };
    if m < 1 {
        1
    } else if m > 50 {
        50
    } else {
        m
    }
}

/// Citations to fetch: 10 unless given, kept within 1..=100.
pub fn citation_limit(limit: Option<u32>) -> (n: u32)
    ensures
        n == clamp_spec(
            match limit {
                Some(l) => l,
                None => 10,
            },
            1,
            100,
        ),
{
    let l = match limit {
        Some(l) => l,
        None => 10,
    };
    if l < 1 {
        1
    } else if l > 100 {
        100
    } else {
        l
    }
}

/// Recommendations to fetch: 10 unless given, kept within 1..=50.
pub fn recommendation_limit(limit: Option<u32>) -> (n: u32)
    ensures
        n == clamp_spec(
            match limit {
                Some(l) => l,
                None => 10,
            },
            1,
            50,
        ),
{
    let l = match limit {
        Some(l) => l,
        None => 10,
    };
    if l < 1 {
        1
    } else if l > 50 {
        50
    } else {
        l
    }
}

} // verus!
