//! Verified core of a personal ranking tool: sorting sessions, rank groups,
//! import parsing and result export, independent of storage and UI.

pub mod comparison;
pub mod dataset;
pub mod error;
pub mod groups;
pub mod history;
pub mod import;
pub mod json;
pub mod matrix;
pub mod media;
pub mod paths;
pub mod project;
pub mod ranking;
pub mod result;
pub mod scoring;
pub mod slider;
pub mod sort_task;
pub mod text;
pub mod topology;
pub mod workspace;
