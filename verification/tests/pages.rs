use project_store::views::block_view;
use project_store::views::completed_view;
use project_store::views::index_view;
use project_store::views::project_view;
use project_store::views::AddQuery;
use project_store::views::BlockQuery;
use project_store::views::CompleteQuery;
use project_store::views::DeleteQuery;
use project_store::views::MoveQuery;
use project_store::views::StartQuery;
use project_store::views::UpdateNotesQuery;
use project_store::views::LEFT_CATEGORY;
use project_store::views::RIGHT_CATEGORY;
use project_store::Store;

fn loaded_store(completed: usize) -> Store {
    let mut s = Store::new();
    for i in 0..completed {
        let id = s
            .add_dated(format!("P{}", i), LEFT_CATEGORY.to_string(), 0)
            .unwrap();
        s.complete_dated(id, i as i64).unwrap();
    }
    s
}

#[test]
fn index_view_lists_every_row_in_position_order() {
    let mut s = Store::new();
    let a = s
        .add_dated("A".to_string(), LEFT_CATEGORY.to_string(), 1)
        .unwrap();
    let b = s
        .add_dated("B".to_string(), RIGHT_CATEGORY.to_string(), 1)
        .unwrap();
    let t = index_view(&s);
    assert_eq!(t.left_category, "Personal");
    assert_eq!(t.right_category, "Professional");
    assert_eq!(t.projects.len(), 2);
    assert!(t.projects.iter().any(|p| p.id == a));
    assert!(t.projects.iter().any(|p| p.id == b));
    for k in 1..t.projects.len() {
        assert!(t.projects[k - 1].position <= t.projects[k].position);
    }
}

#[test]
fn completed_view_carries_the_first_block_and_the_whole_archive() {
    let s = loaded_store(12);
    let t = completed_view(&s);
    assert_eq!(t.projects.len(), 12);
    assert_eq!(t.block.len(), 10);
    assert_eq!(t.next_block, 2);
    assert_eq!(t.more, 1);
}

#[test]
fn completed_view_of_a_short_archive_has_no_further_block() {
    let s = loaded_store(4);
    let t = completed_view(&s);
    assert_eq!(t.projects.len(), 4);
    assert_eq!(t.block.len(), 4);
    assert_eq!(t.more, 0);
}

#[test]
fn block_view_pages_through_the_archive() {
    let s = loaded_store(25);
    let second = block_view(&s, 2);
    assert_eq!(second.block.len(), 10);
    assert_eq!(second.next_block, 3);
    assert_eq!(second.more, 1);
    let third = block_view(&s, 3);
    assert_eq!(third.block.len(), 5);
    assert_eq!(third.next_block, 4);
    assert_eq!(third.more, 0);
    let fourth = block_view(&s, 4);
    assert_eq!(fourth.block.len(), 0);
    assert_eq!(fourth.more, 0);
}

#[test]
fn project_view_finds_a_row_by_id() {
    let mut s = Store::new();
    let a = s
        .add_dated("A".to_string(), LEFT_CATEGORY.to_string(), 1)
        .unwrap();
    let page = project_view(&s, a).unwrap();
    assert_eq!(page.project.id, a);
    assert_eq!(page.project.name, "A");
    assert!(project_view(&s, a + 1).is_none());
}

#[test]
fn query_shapes_carry_their_fields() {
    let q1 = StartQuery { id: 1, category: "Personal".to_string(), position: 2 };
    assert_eq!(q1.id, 1);
    assert_eq!(q1.position, 2);
    let q2 = CompleteQuery { id: 3 };
    assert_eq!(q2.id, 3);
    let q3 = BlockQuery { block: 4 };
    assert_eq!(q3.block, 4);
    let q4 = AddQuery { name: "N".to_string(), category: "Personal".to_string() };
    assert_eq!(q4.name, "N");
    let q5 = DeleteQuery { id: 5, category: "Personal".to_string(), position: 1 };
    assert_eq!(q5.category, "Personal");
    let q6 = MoveQuery { id: 6, category: "Professional".to_string(), position: 2 };
    assert_eq!(q6.position, 2);
    let q7 = UpdateNotesQuery { id: 7, notes: "n".to_string() };
    assert_eq!(q7.notes, "n");
}
