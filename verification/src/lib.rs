//! A small project-tracking store: projects grouped into categories, each
//! category keeping a dense 1-based `position` order under adds, deletes,
//! moves, starts and restores.

#![verifier::loop_isolation(false)]

pub mod laws;
mod models;
pub mod ordering;
pub mod sorting;
mod store;
pub mod views;

pub use models::same_except_id;
pub use models::views_of;
pub use models::Project;
pub use models::ProjectView;
pub use models::StoreError;
pub use models::STATUS_COMPLETED;
pub use models::STATUS_PENDING;
pub use models::STATUS_STARTED;
pub use store::Store;
