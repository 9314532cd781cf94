pub mod error;
pub mod parse;
pub mod stats;
pub mod key;
pub mod search;
pub mod scan;
pub mod split;
pub mod parallel;
pub mod report;
