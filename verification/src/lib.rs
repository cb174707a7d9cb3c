pub mod analysis;
pub mod error;
pub mod extraction;
pub mod model;
pub mod strings;
pub mod tally;
pub mod validation;
pub mod ui;
pub mod cli;

pub mod sorting;
pub mod ordering;
pub mod report;
pub mod hashing;
