//! Verified core of a tool that measures how well Git compresses the files of a repository:
//! it reads what Git prints about objects, trees and history, gathers statistics per file,
//! and orders, filters and totals the report.

pub mod text;
pub mod number;
pub mod git;
pub mod table;
pub mod stats;
pub mod history;
pub mod sorting;
pub mod report;
pub mod scan;
