//! Aggregation of per-site records into counts of questions and words per site
//! and per tag, merged associatively, and ranked by words per question.

pub mod table;
pub mod counts;
pub mod report;
pub mod records;
pub mod ranking;
pub mod words;
