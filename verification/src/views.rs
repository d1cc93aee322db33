//! What the request layer exchanges with the store: the parameter shapes of
//! the mutating requests, and the page models the templates render — each
//! page model built here, so that what a page shows is pinned to the store's
//! contents by contract.

use vstd::prelude::*;

use crate::models::views_of;
use crate::models::Project;
use crate::ordering::has_id;
use crate::sorting::completed_rows;
use crate::sorting::page_of;
use crate::sorting::sort_by_completion;
use crate::sorting::sort_by_position;
use crate::store::Store;

verus! {

/// The category shown on the left of the board.
pub const LEFT_CATEGORY: &'static str = "Personal";

/// The category shown on the right of the board.
pub const RIGHT_CATEGORY: &'static str = "Professional";

/// Parameters of a request to start a project.
#[derive(Debug)]
pub struct StartQuery {
    pub id: u64,
    pub category: String,
    pub position: u64,
}

/// Parameters of a request to complete a project.
#[derive(Debug)]
pub struct CompleteQuery {
    pub id: u64,
}

/// Parameters of a request for a block of the completed list.
#[derive(Debug)]
pub struct BlockQuery {
    pub block: u64,
}

/// Parameters of a request to add a project.
#[derive(Debug)]
pub struct AddQuery {
    pub name: String,
    pub category: String,
}

/// Parameters of a request to delete a project.
#[derive(Debug)]
pub struct DeleteQuery {
    pub id: u64,
    pub category: String,
    pub position: u64,
}

/// Parameters of a request to move a project up or down.
#[derive(Debug)]
pub struct MoveQuery {
    pub id: u64,
    pub category: String,
    pub position: u64,
}

/// Parameters of a request to overwrite a project's notes.
#[derive(Debug)]
pub struct UpdateNotesQuery {
    pub id: u64,
    pub notes: String,
}

/// The index page: every project in display order, between the two category
/// headings.
#[derive(Debug)]
pub struct IndexTemplate {
    pub projects: Vec<Project>,
    pub left_category: String,
    pub right_category: String,
}

/// The completed page: the whole archive for the timeline together with its
/// first block of ten.
#[derive(Debug)]
pub struct CompletedTemplate {
    pub projects: Vec<Project>,
    pub block: Vec<Project>,
    pub left_category: String,
    pub right_category: String,
    pub next_block: u64,
    pub more: u8,
}

/// One further block of the completed list.
#[derive(Debug)]
pub struct BlockTemplate {
    pub block: Vec<Project>,
    pub left_category: String,
    pub right_category: String,
    pub next_block: u64,
    pub more: u8,
}

/// A single project's page.
#[derive(Debug)]
pub struct ProjectTemplate {
    pub project: Project,
}

/// The index page of `store`: all rows in ascending position order.
pub fn index_view(store: &Store) -> (t: IndexTemplate)
    requires
        store.wf(),
    ensures
        views_of(t.projects@) == sort_by_position(store@),
        t.left_category@ == LEFT_CATEGORY@,
        t.right_category@ == RIGHT_CATEGORY@,
{
    IndexTemplate {
        projects: store.list_active(),
        left_category: LEFT_CATEGORY.to_owned(),
        right_category: RIGHT_CATEGORY.to_owned(),
    }
}

/// The completed page of `store`: the whole archive, its first block of
/// ten, and whether a second block follows.
pub fn completed_view(store: &Store) -> (t: CompletedTemplate)
    requires
        store.wf(),
    ensures
        views_of(t.projects@) == sort_by_completion(completed_rows(store@)),
        views_of(t.block@) == page_of(sort_by_completion(completed_rows(store@)), 1),
        t.next_block == 2,
        t.more == if views_of(t.block@).len() < 10 {
            0u8
        } else {
            1u8
        },
        t.left_category@ == LEFT_CATEGORY@,
        t.right_category@ == RIGHT_CATEGORY@,
{
    let all = store.list_completed(0);
    let block = store.list_completed(1);
    let more: u8 = if block.len() < 10 {
        0
    } else {
        1
    };
    CompletedTemplate {
        projects: all,
        block: block,
        left_category: LEFT_CATEGORY.to_owned(),
        right_category: RIGHT_CATEGORY.to_owned(),
        next_block: 2,
        more: more,
    }
}

/// Block `block` of `store`'s completed list, and whether another block
/// follows it.
pub fn block_view(store: &Store, block: u64) -> (t: BlockTemplate)
    requires
        store.wf(),
        block < u64::MAX,
    ensures
        views_of(t.block@) == page_of(sort_by_completion(completed_rows(store@)), block as int),
        t.next_block == block + 1,
        t.more == if views_of(t.block@).len() < 10 {
            0u8
        } else {
            1u8
        },
        t.left_category@ == LEFT_CATEGORY@,
        t.right_category@ == RIGHT_CATEGORY@,
{
    let rows = store.list_completed(block);
    let more: u8 = if rows.len() < 10 {
        0
    } else {
        1
    };
    BlockTemplate {
        block: rows,
        left_category: LEFT_CATEGORY.to_owned(),
        right_category: RIGHT_CATEGORY.to_owned(),
        next_block: block + 1,
        more: more,
    }
}

/// The page of the row carrying `id`, when there is one.
pub fn project_view(store: &Store, id: u64) -> (t: Option<ProjectTemplate>)
    requires
        store.wf(),
    ensures
        match t {
            Some(page) => exists|i: int|
                0 <= i < store@.len() && (#[trigger] store@[i]).id == id as int && page.project@
                    == store@[i],
            None => !has_id(store@, id as int),
        },
{
    match store.get(id) {
        Some(p) => Some(ProjectTemplate { project: p }),
        None => None,
    }
}

} // verus!
