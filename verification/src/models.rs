//! The one entity of the store: a project, with its mathematical view.

use vstd::prelude::*;

verus! {

/// Lifecycle stage: not yet started.
pub const STATUS_PENDING: u64 = 0;

/// Lifecycle stage: started.
pub const STATUS_STARTED: u64 = 1;

/// Lifecycle stage: completed.
pub const STATUS_COMPLETED: u64 = 2;

/// A project row. `position` is a 1-based rank, unique and dense within a
/// `category`; `status` is one of the `STATUS_*` constants; the three dates
/// are day numbers (days since the common era, as a calendar library counts
/// them), `0` standing for "not set".
#[derive(Debug)]
pub struct Project {
    pub id: u64,
    pub name: String,
    pub category: String,
    pub position: u64,
    pub status: u64,
    pub notes: String,
    pub creation_date: i64,
    pub start_date: i64,
    pub completion_date: i64,
}

/// The mathematical image of a [`Project`]: strings as character sequences,
/// numbers as unbounded integers.
#[verifier::ext_equal]
pub ghost struct ProjectView {
    pub id: int,
    pub name: Seq<char>,
    pub category: Seq<char>,
    pub position: int,
    pub status: int,
    pub notes: Seq<char>,
    pub creation_date: int,
    pub start_date: int,
    pub completion_date: int,
}

impl View for Project {
    type V = ProjectView;

    open spec fn view(&self) -> ProjectView {
        ProjectView {
            id: self.id as int,
            name: self.name@,
            category: self.category@,
            position: self.position as int,
            status: self.status as int,
            notes: self.notes@,
            creation_date: self.creation_date as int,
            start_date: self.start_date as int,
            completion_date: self.completion_date as int,
        }
    }
}

impl Project {
    /// An exact copy of the row, field by field.
    pub fn duplicate(&self) -> (r: Project)
        ensures
            r@ == self@,
    {
        Project {
            id: self.id,
            name: self.name.clone(),
            category: self.category.clone(),
            position: self.position,
            status: self.status,
            notes: self.notes.clone(),
            creation_date: self.creation_date,
            start_date: self.start_date,
            completion_date: self.completion_date,
        }
    }
}

/// The mathematical views of a sequence of rows, in order.
pub open spec fn views_of(v: Seq<Project>) -> Seq<ProjectView> {
    v.map_values(|p: Project| p@)
}

/// Whether two rows agree on every field except the identifier.
pub open spec fn same_except_id(a: ProjectView, b: ProjectView) -> bool {
    ProjectView { id: 0, ..a } == ProjectView { id: 0, ..b }
}

/// What a store operation can fail with.
#[derive(Debug, Clone, Copy, PartialEq, Eq, Structural)]
pub enum StoreError {
    /// The operation named a row that is not in the store (or not in the
    /// category and at the position the caller supplied).
    NotFound,
    /// Carrying the operation out would break the dense-position invariant
    /// or exhaust the identifier space.
    ConstraintViolation,
    /// A restore payload does not describe a well-formed table.
    MalformedImport,
}

} // verus!
