//! Planning the updates that bring a deck in line with a set of documents.
pub mod error;
pub mod executor;
pub mod planner;
pub mod types;

pub use error::PlanError;
pub use planner::{SimplePlanner, UpdatePlanner};
pub use types::{Card, CardId, CardType, DocumentDiff, DocumentSet, Operation, SyncPlan};
pub use executor::{DefaultExecutor, PlanExecutor};
