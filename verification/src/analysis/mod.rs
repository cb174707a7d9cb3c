pub mod corpus;
pub mod filters;
pub mod proof_steps;
pub mod dependency;
pub mod structure;
pub mod modules;
pub mod graph;
pub mod lenses;
pub mod summary;
pub mod influence;
pub mod bridge;
pub mod comparison;
pub mod regions;
pub mod metrics;
pub mod degrees;
pub mod listing;
