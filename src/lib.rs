//! Task dispatch core of a formatter orchestrator: routes files to tools by
//! glob patterns, splits each tool's files into argument-length-bounded
//! batches, and folds the outcomes of the launched batches into results.

pub mod config;
pub mod exec;
pub mod git;
pub mod matcher;
pub mod report;
pub mod version;
