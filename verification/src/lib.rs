//! Live shuttle-arrival countdown for a two-line character display.
//!
//! A poller periodically fetches arrival predictions for a fixed set of
//! stops and publishes them as one sorted snapshot; a renderer projects
//! each prediction onto the current wall clock and lays the results out
//! into two fixed-width display lines. This crate holds the verified
//! core: the snapshot-building and publication rules, the time
//! projection and countdown formatting, the line layout, and the
//! startup selection of stops and routes. Network fetches and the
//! display device itself live outside the crate and hand plain values
//! in and out.

pub mod model;
pub mod poll;
pub mod render;
pub mod discover;
pub mod clock;
