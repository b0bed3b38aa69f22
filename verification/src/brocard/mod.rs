//! The search itself: candidate outcomes, per-chunk reports, the solver of
//! one contiguous span, and the broker that cuts a range into spans.
pub mod candidate;
pub mod report;
pub mod span;
pub mod broker;
