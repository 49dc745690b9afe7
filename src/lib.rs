//! An interactive fuzzy matching engine: a matcher kernel that scores a
//! needle against a haystack (fuzzy, greedy, substring, prefix, postfix and
//! exact matching), the pattern language built on it, and the decisions of
//! a background coordinator that ranks a growing set of items.

pub mod chars;
pub mod config;
pub mod utf32_str;
pub mod utf32_string;
pub mod score;
pub mod search;
pub mod matcher;
pub mod optimal;
pub mod pattern;
pub mod multi_pattern;
pub mod boxcar;
pub mod coordinator;
