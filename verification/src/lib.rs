//! Verified core of a student-grade prediction pipeline: reading a student
//! row, encoding grades and categorical features, splitting and sampling
//! rows, classification metrics, and random-forest voting.
pub mod data;
pub mod features;
pub mod matrix;
pub mod metrics;
pub mod sampling;
pub mod text;
pub mod voting;
