use project_store::Project;
use project_store::Store;
use project_store::StoreError;
use project_store::STATUS_COMPLETED;
use project_store::STATUS_PENDING;
use project_store::STATUS_STARTED;

fn personal() -> String {
    "Personal".to_string()
}

fn professional() -> String {
    "Professional".to_string()
}

#[test]
fn add_to_empty_category_takes_position_one() {
    let mut s = Store::new();
    let id = s.add_dated("A".to_string(), personal(), 100).unwrap();
    let p = s.get(id).unwrap();
    assert_eq!(p.position, 1);
    assert_eq!(p.status, STATUS_PENDING);
    assert_eq!(p.name, "A");
    assert_eq!(p.category, "Personal");
    assert_eq!(p.creation_date, 100);
    assert_eq!(p.notes, "");
}

#[test]
fn add_appends_after_current_max() {
    let mut s = Store::new();
    let a = s.add_dated("A".to_string(), personal(), 1).unwrap();
    let b = s.add_dated("B".to_string(), personal(), 2).unwrap();
    let c = s.add_dated("C".to_string(), personal(), 3).unwrap();
    assert_eq!(s.get(a).unwrap().position, 1);
    assert_eq!(s.get(b).unwrap().position, 2);
    assert_eq!(s.get(c).unwrap().position, 3);
    // a second category starts its own ordering from 1
    let x = s.add_dated("X".to_string(), professional(), 4).unwrap();
    assert_eq!(s.get(x).unwrap().position, 1);
    assert_eq!(s.highest_position(&personal()), 3);
    assert_eq!(s.highest_position(&professional()), 1);
    assert_eq!(s.highest_position(&"Elsewhere".to_string()), 0);
}

#[test]
fn add_hands_out_distinct_ids() {
    let mut s = Store::new();
    let a = s.add_dated("A".to_string(), personal(), 1).unwrap();
    let b = s.add_dated("B".to_string(), professional(), 1).unwrap();
    let c = s.add_dated("C".to_string(), personal(), 1).unwrap();
    assert!(a != b && b != c && a != c);
}

#[test]
fn delete_shifts_later_rows_down() {
    let mut s = Store::new();
    let a = s.add_dated("A".to_string(), personal(), 1).unwrap();
    let b = s.add_dated("B".to_string(), personal(), 1).unwrap();
    let c = s.add_dated("C".to_string(), personal(), 1).unwrap();
    let d = s.add_dated("D".to_string(), personal(), 1).unwrap();
    s.delete(b, &personal(), 2).unwrap();
    assert_eq!(s.get(a).unwrap().position, 1);
    assert_eq!(s.get(c).unwrap().position, 2);
    assert_eq!(s.get(d).unwrap().position, 3);
    assert!(s.get(b).is_none());
}

#[test]
fn delete_leaves_other_categories_alone() {
    let mut s = Store::new();
    let a = s.add_dated("A".to_string(), personal(), 1).unwrap();
    let x = s.add_dated("X".to_string(), professional(), 1).unwrap();
    let y = s.add_dated("Y".to_string(), professional(), 1).unwrap();
    s.delete(a, &personal(), 1).unwrap();
    assert_eq!(s.get(x).unwrap().position, 1);
    assert_eq!(s.get(y).unwrap().position, 2);
}

#[test]
fn delete_rejects_wrong_triple() {
    let mut s = Store::new();
    let a = s.add_dated("A".to_string(), personal(), 1).unwrap();
    assert_eq!(s.delete(a + 1, &personal(), 1), Err(StoreError::NotFound));
    assert_eq!(s.delete(a, &professional(), 1), Err(StoreError::NotFound));
    assert_eq!(s.delete(a, &personal(), 2), Err(StoreError::NotFound));
    // the row is still there, untouched
    assert_eq!(s.get(a).unwrap().position, 1);
}

#[test]
fn move_up_swaps_with_the_row_ahead() {
    let mut s = Store::new();
    let a = s.add_dated("A".to_string(), personal(), 1).unwrap();
    let b = s.add_dated("B".to_string(), personal(), 1).unwrap();
    let c = s.add_dated("C".to_string(), personal(), 1).unwrap();
    s.move_up(b, &personal(), 2).unwrap();
    assert_eq!(s.get(b).unwrap().position, 1);
    assert_eq!(s.get(a).unwrap().position, 2);
    assert_eq!(s.get(c).unwrap().position, 3);
}

#[test]
fn move_up_at_the_front_is_a_no_op() {
    let mut s = Store::new();
    let a = s.add_dated("A".to_string(), personal(), 1).unwrap();
    let b = s.add_dated("B".to_string(), personal(), 1).unwrap();
    s.move_up(a, &personal(), 1).unwrap();
    assert_eq!(s.get(a).unwrap().position, 1);
    assert_eq!(s.get(b).unwrap().position, 2);
}

#[test]
fn move_down_swaps_with_the_row_behind() {
    let mut s = Store::new();
    let a = s.add_dated("A".to_string(), personal(), 1).unwrap();
    let b = s.add_dated("B".to_string(), personal(), 1).unwrap();
    let c = s.add_dated("C".to_string(), personal(), 1).unwrap();
    s.move_down(a, &personal(), 1).unwrap();
    assert_eq!(s.get(b).unwrap().position, 1);
    assert_eq!(s.get(a).unwrap().position, 2);
    assert_eq!(s.get(c).unwrap().position, 3);
}

#[test]
fn move_down_at_the_back_is_a_no_op() {
    let mut s = Store::new();
    let a = s.add_dated("A".to_string(), personal(), 1).unwrap();
    let b = s.add_dated("B".to_string(), personal(), 1).unwrap();
    s.move_down(b, &personal(), 2).unwrap();
    assert_eq!(s.get(a).unwrap().position, 1);
    assert_eq!(s.get(b).unwrap().position, 2);
}

#[test]
fn move_rejects_missing_row() {
    let mut s = Store::new();
    let a = s.add_dated("A".to_string(), personal(), 1).unwrap();
    assert_eq!(s.move_up(a, &personal(), 2), Err(StoreError::NotFound));
    assert_eq!(s.move_down(a + 7, &personal(), 1), Err(StoreError::NotFound));
}

#[test]
fn up_then_down_restores_the_order() {
    let mut s = Store::new();
    let a = s.add_dated("A".to_string(), personal(), 1).unwrap();
    let b = s.add_dated("B".to_string(), personal(), 1).unwrap();
    let c = s.add_dated("C".to_string(), personal(), 1).unwrap();
    let d = s.add_dated("D".to_string(), personal(), 1).unwrap();
    s.move_up(c, &personal(), 3).unwrap();
    s.move_down(c, &personal(), 2).unwrap();
    assert_eq!(s.get(a).unwrap().position, 1);
    assert_eq!(s.get(b).unwrap().position, 2);
    assert_eq!(s.get(c).unwrap().position, 3);
    assert_eq!(s.get(d).unwrap().position, 4);
}

#[test]
fn start_moves_the_row_to_the_front() {
    let mut s = Store::new();
    let a = s.add_dated("A".to_string(), personal(), 1).unwrap();
    let b = s.add_dated("B".to_string(), personal(), 1).unwrap();
    let c = s.add_dated("C".to_string(), personal(), 1).unwrap();
    let d = s.add_dated("D".to_string(), personal(), 1).unwrap();
    s.start_dated(c, &personal(), 3, 77).unwrap();
    let started = s.get(c).unwrap();
    assert_eq!(started.position, 1);
    assert_eq!(started.status, STATUS_STARTED);
    assert_eq!(started.start_date, 77);
    // the rows that were ahead step back; the row behind stays
    assert_eq!(s.get(a).unwrap().position, 2);
    assert_eq!(s.get(b).unwrap().position, 3);
    assert_eq!(s.get(d).unwrap().position, 4);
}

#[test]
fn start_leaves_other_categories_alone() {
    let mut s = Store::new();
    let a = s.add_dated("A".to_string(), personal(), 1).unwrap();
    let x = s.add_dated("X".to_string(), professional(), 1).unwrap();
    s.start_dated(a, &personal(), 1, 5).unwrap();
    assert_eq!(s.get(x).unwrap().position, 1);
    assert_eq!(s.get(x).unwrap().status, STATUS_PENDING);
}

#[test]
fn complete_sets_status_and_day_only() {
    let mut s = Store::new();
    let a = s.add_dated("A".to_string(), personal(), 1).unwrap();
    let b = s.add_dated("B".to_string(), personal(), 1).unwrap();
    s.complete_dated(b, 55).unwrap();
    let done = s.get(b).unwrap();
    assert_eq!(done.status, STATUS_COMPLETED);
    assert_eq!(done.completion_date, 55);
    assert_eq!(done.position, 2);
    assert_eq!(s.get(a).unwrap().position, 1);
    assert_eq!(s.complete_dated(b + 9, 1), Err(StoreError::NotFound));
}

#[test]
fn update_notes_overwrites_notes_only() {
    let mut s = Store::new();
    let a = s.add_dated("A".to_string(), personal(), 1).unwrap();
    s.update_notes(a, "remember the milk".to_string()).unwrap();
    let p = s.get(a).unwrap();
    assert_eq!(p.notes, "remember the milk");
    assert_eq!(p.position, 1);
    assert_eq!(p.status, STATUS_PENDING);
    assert_eq!(
        s.update_notes(a + 1, "x".to_string()),
        Err(StoreError::NotFound)
    );
}

#[test]
fn clock_stamped_operations_behave_like_dated_ones() {
    let mut s = Store::new();
    let a = s.add("A".to_string(), personal()).unwrap();
    let b = s.add("B".to_string(), personal()).unwrap();
    assert_eq!(s.get(a).unwrap().position, 1);
    assert_eq!(s.get(b).unwrap().position, 2);
    s.start(b, &personal(), 2).unwrap();
    assert_eq!(s.get(b).unwrap().position, 1);
    assert_eq!(s.get(b).unwrap().status, STATUS_STARTED);
    s.complete(b).unwrap();
    assert_eq!(s.get(b).unwrap().status, STATUS_COMPLETED);
}

#[test]
fn duplicate_copies_every_field() {
    let p = Project {
        id: 9,
        name: "N".to_string(),
        category: "C".to_string(),
        position: 4,
        status: STATUS_STARTED,
        notes: "n".to_string(),
        creation_date: 1,
        start_date: 2,
        completion_date: 3,
    };
    let q = p.duplicate();
    assert_eq!(q.id, 9);
    assert_eq!(q.name, "N");
    assert_eq!(q.category, "C");
    assert_eq!(q.position, 4);
    assert_eq!(q.status, STATUS_STARTED);
    assert_eq!(q.notes, "n");
    assert_eq!(q.creation_date, 1);
    assert_eq!(q.start_date, 2);
    assert_eq!(q.completion_date, 3);
}
