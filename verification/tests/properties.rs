use project_store::Project;
use project_store::Store;
use project_store::StoreError;
use project_store::STATUS_COMPLETED;

fn personal() -> String {
    "Personal".to_string()
}

fn professional() -> String {
    "Professional".to_string()
}

/// The positions of a category's rows, sorted — density means they must
/// read 1, 2, ..., N.
fn positions_in(s: &Store, category: &str) -> Vec<u64> {
    let mut v: Vec<u64> = s
        .export_all()
        .into_iter()
        .filter(|p| p.category == category)
        .map(|p| p.position)
        .collect();
    v.sort();
    v
}

#[test]
fn positions_stay_dense_under_every_operation() {
    let mut s = Store::new();
    let a = s.add_dated("A".to_string(), personal(), 1).unwrap();
    let b = s.add_dated("B".to_string(), personal(), 1).unwrap();
    let c = s.add_dated("C".to_string(), personal(), 1).unwrap();
    let d = s.add_dated("D".to_string(), personal(), 1).unwrap();
    let x = s.add_dated("X".to_string(), professional(), 1).unwrap();
    let _y = s.add_dated("Y".to_string(), professional(), 1).unwrap();
    assert_eq!(positions_in(&s, "Personal"), vec![1, 2, 3, 4]);
    assert_eq!(positions_in(&s, "Professional"), vec![1, 2]);

    s.move_up(c, &personal(), 3).unwrap();
    assert_eq!(positions_in(&s, "Personal"), vec![1, 2, 3, 4]);

    s.delete(b, &personal(), 3).unwrap();
    assert_eq!(positions_in(&s, "Personal"), vec![1, 2, 3]);

    s.start_dated(d, &personal(), 3, 9).unwrap();
    assert_eq!(positions_in(&s, "Personal"), vec![1, 2, 3]);

    s.move_down(a, &personal(), 2).unwrap();
    assert_eq!(positions_in(&s, "Personal"), vec![1, 2, 3]);

    s.complete_dated(a, 10).unwrap();
    assert_eq!(positions_in(&s, "Personal"), vec![1, 2, 3]);

    s.delete(x, &professional(), 1).unwrap();
    assert_eq!(positions_in(&s, "Professional"), vec![1]);
    assert_eq!(positions_in(&s, "Personal"), vec![1, 2, 3]);
}

#[test]
fn scenario_delete_move_start() {
    // category "Personal" holds A(1), B(2), C(3)
    let mut s = Store::new();
    let a = s.add_dated("A".to_string(), personal(), 1).unwrap();
    let b = s.add_dated("B".to_string(), personal(), 1).unwrap();
    let c = s.add_dated("C".to_string(), personal(), 1).unwrap();

    // Delete(B, pos 2): A stays at 1, C slides to 2
    s.delete(b, &personal(), 2).unwrap();
    assert_eq!(s.get(a).unwrap().position, 1);
    assert_eq!(s.get(c).unwrap().position, 2);

    // MoveUp(C, pos 2): swap, so C 1 and A 2
    s.move_up(c, &personal(), 2).unwrap();
    assert_eq!(s.get(c).unwrap().position, 1);
    assert_eq!(s.get(a).unwrap().position, 2);

    // Start(A, pos 2): A to the front, C back to 2
    s.start_dated(a, &personal(), 2, 50).unwrap();
    assert_eq!(s.get(a).unwrap().position, 1);
    assert_eq!(s.get(c).unwrap().position, 2);
}

#[test]
fn pagination_of_twenty_five_completed_projects() {
    let mut s = Store::new();
    // 25 completed projects, completion days 1..=25 in insertion order
    let mut ids = Vec::new();
    for i in 1..=25i64 {
        let id = s
            .add_dated(format!("P{}", i), personal(), 0)
            .unwrap();
        s.complete_dated(id, i).unwrap();
        ids.push(id);
    }
    let all = s.list_completed(0);
    assert_eq!(all.len(), 25);
    // descending by completion day: 25, 24, ..., 1
    for (k, p) in all.iter().enumerate() {
        assert_eq!(p.completion_date, 25 - k as i64);
    }
    let first = s.list_completed(1);
    assert_eq!(first.len(), 10);
    assert_eq!(first[0].completion_date, 25);
    assert_eq!(first[9].completion_date, 16);
    let second = s.list_completed(2);
    assert_eq!(second.len(), 10);
    assert_eq!(second[0].completion_date, 15);
    assert_eq!(second[9].completion_date, 6);
    let third = s.list_completed(3);
    assert_eq!(third.len(), 5);
    assert_eq!(third[0].completion_date, 5);
    assert_eq!(third[4].completion_date, 1);
    let fourth = s.list_completed(4);
    assert_eq!(fourth.len(), 0);
}

#[test]
fn list_completed_skips_active_rows() {
    let mut s = Store::new();
    let a = s.add_dated("A".to_string(), personal(), 1).unwrap();
    let b = s.add_dated("B".to_string(), personal(), 1).unwrap();
    let _c = s.add_dated("C".to_string(), personal(), 1).unwrap();
    s.start_dated(a, &personal(), 1, 2).unwrap();
    s.complete_dated(b, 3).unwrap();
    let done = s.list_completed(0);
    assert_eq!(done.len(), 1);
    assert_eq!(done[0].id, b);
    assert_eq!(done[0].status, STATUS_COMPLETED);
}

#[test]
fn list_active_orders_by_ascending_position() {
    let mut s = Store::new();
    let a = s.add_dated("A".to_string(), personal(), 1).unwrap();
    let b = s.add_dated("B".to_string(), personal(), 1).unwrap();
    let c = s.add_dated("C".to_string(), personal(), 1).unwrap();
    let x = s.add_dated("X".to_string(), professional(), 1).unwrap();
    s.move_up(c, &personal(), 3).unwrap();
    s.move_up(c, &personal(), 2).unwrap();
    // Personal now reads C(1), A(2), B(3); Professional X(1)
    let rows = s.list_active();
    assert_eq!(rows.len(), 4);
    for k in 1..rows.len() {
        assert!(rows[k - 1].position <= rows[k].position);
    }
    let personal_rows: Vec<u64> = rows
        .iter()
        .filter(|p| p.category == "Personal")
        .map(|p| p.id)
        .collect();
    assert_eq!(personal_rows, vec![c, a, b]);
    assert!(rows.iter().any(|p| p.id == x));
}

#[test]
fn export_then_import_reproduces_the_rows() {
    let mut s = Store::new();
    let a = s.add_dated("A".to_string(), personal(), 11).unwrap();
    let b = s.add_dated("B".to_string(), personal(), 12).unwrap();
    let _c = s.add_dated("C".to_string(), professional(), 13).unwrap();
    s.start_dated(a, &personal(), 1, 14).unwrap();
    s.complete_dated(b, 15).unwrap();
    s.update_notes(b, "done and dusted".to_string()).unwrap();

    let backup = s.export_all();
    let mut t = Store::new();
    t.import(backup).unwrap();

    let original = s.export_all();
    let restored = t.export_all();
    assert_eq!(original.len(), restored.len());
    for (p, q) in original.iter().zip(restored.iter()) {
        assert_eq!(p.name, q.name);
        assert_eq!(p.category, q.category);
        assert_eq!(p.position, q.position);
        assert_eq!(p.status, q.status);
        assert_eq!(p.notes, q.notes);
        assert_eq!(p.creation_date, q.creation_date);
        assert_eq!(p.start_date, q.start_date);
        assert_eq!(p.completion_date, q.completion_date);
    }
    // and the restored store behaves: positions are dense per category
    assert_eq!(positions_in(&t, "Personal"), vec![1, 2]);
    assert_eq!(positions_in(&t, "Professional"), vec![1]);
}

#[test]
fn import_into_a_loaded_store_is_refused() {
    let mut s = Store::new();
    s.add_dated("A".to_string(), personal(), 1).unwrap();
    let backup = s.export_all();
    let mut t = Store::new();
    t.add_dated("B".to_string(), personal(), 1).unwrap();
    assert_eq!(t.import(backup), Err(StoreError::ConstraintViolation));
    // the resident row is untouched
    assert_eq!(t.export_all().len(), 1);
}

fn plain_row(name: &str, category: &str, position: u64, status: u64) -> Project {
    Project {
        id: 0,
        name: name.to_string(),
        category: category.to_string(),
        position,
        status,
        notes: String::new(),
        creation_date: 0,
        start_date: 0,
        completion_date: 0,
    }
}

#[test]
fn import_rejects_gapped_positions() {
    let mut t = Store::new();
    let payload = vec![
        plain_row("A", "Personal", 1, 0),
        plain_row("B", "Personal", 3, 0),
    ];
    assert_eq!(t.import(payload), Err(StoreError::MalformedImport));
    assert_eq!(t.export_all().len(), 0);
}

#[test]
fn import_rejects_duplicate_positions() {
    let mut t = Store::new();
    let payload = vec![
        plain_row("A", "Personal", 1, 0),
        plain_row("B", "Personal", 1, 0),
    ];
    assert_eq!(t.import(payload), Err(StoreError::MalformedImport));
}

#[test]
fn import_rejects_unknown_status() {
    let mut t = Store::new();
    let payload = vec![plain_row("A", "Personal", 1, 3)];
    assert_eq!(t.import(payload), Err(StoreError::MalformedImport));
}

#[test]
fn import_accepts_a_valid_payload_and_assigns_fresh_ids() {
    let mut t = Store::new();
    let payload = vec![
        plain_row("A", "Personal", 2, 0),
        plain_row("B", "Personal", 1, 1),
        plain_row("C", "Professional", 1, 2),
    ];
    t.import(payload).unwrap();
    let rows = t.export_all();
    assert_eq!(rows.len(), 3);
    assert!(rows[0].id != rows[1].id && rows[1].id != rows[2].id);
    assert_eq!(rows[0].name, "A");
    assert_eq!(rows[0].position, 2);
    assert_eq!(rows[1].status, 1);
    assert_eq!(rows[2].category, "Professional");
}

#[test]
fn import_of_an_empty_payload_is_an_empty_store() {
    let mut t = Store::new();
    t.import(Vec::new()).unwrap();
    assert_eq!(t.export_all().len(), 0);
    assert_eq!(t.list_active().len(), 0);
    assert_eq!(t.list_completed(0).len(), 0);
}
