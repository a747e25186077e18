use todo_list::todo::{default_store_path, store_path_in, Todo};

#[test]
fn new_store_is_empty() {
    let t = Todo::new(String::from("/tmp/list.json"));
    assert_eq!(t.items.len(), 0);
    assert_eq!(t.file_path(), "/tmp/list.json");
}

#[test]
fn insertion_order_and_indices() {
    let mut t = Todo::new(String::from("p"));
    t.add_with_timestamp(String::from("first"), String::from("2024-01-01 00:00:01"));
    t.add_with_timestamp(String::from("second"), String::from("2024-01-01 00:00:02"));
    t.add_with_timestamp(String::from("third"), String::from("2024-01-01 00:00:03"));
    let rows = t.list();
    assert_eq!(rows.len(), 3);
    for (i, row) in rows.iter().enumerate() {
        assert_eq!(row.0, i);
    }
    assert_eq!(rows[0].1, "first");
    assert_eq!(rows[1].1, "second");
    assert_eq!(rows[2].1, "third");
    assert_eq!(rows[0].2, "2024-01-01 00:00:01");
    assert_eq!(rows[1].2, "2024-01-01 00:00:02");
    assert_eq!(rows[2].2, "2024-01-01 00:00:03");
}

#[test]
fn add_captures_a_timestamp() {
    let mut t = Todo::new(String::from("p"));
    t.add(String::from("Buy milk"));
    assert_eq!(t.items.len(), 1);
    assert_eq!(t.items[0].content, "Buy milk");
    // `YYYY-MM-DD HH:MM:SS`
    assert_eq!(t.items[0].created_at.len(), 19);
    assert_eq!(t.items[0].created_at.as_bytes()[4], b'-');
    assert_eq!(t.items[0].created_at.as_bytes()[10], b' ');
    assert_eq!(t.items[0].created_at.as_bytes()[13], b':');
}

#[test]
fn edit_valid_changes_only_content() {
    let mut t = Todo::new(String::from("p"));
    t.add_with_timestamp(String::from("a"), String::from("t1"));
    t.add_with_timestamp(String::from("b"), String::from("t2"));
    let r = t.edit(0, String::from("changed"));
    assert!(r.is_ok());
    assert_eq!(t.items[0].content, "changed");
    assert_eq!(t.items[0].created_at, "t1");
    assert_eq!(t.items[1].content, "b");
    assert_eq!(t.items[1].created_at, "t2");
}

#[test]
fn edit_invalid_leaves_items_untouched() {
    let mut t = Todo::new(String::from("p"));
    t.add_with_timestamp(String::from("a"), String::from("t1"));
    let r = t.edit(1, String::from("changed"));
    assert_eq!(r, Err(String::from("Can Not edit Content for given index")));
    assert_eq!(t.items.len(), 1);
    assert_eq!(t.items[0].content, "a");
    assert_eq!(t.items[0].created_at, "t1");
}

#[test]
fn remove_valid_shifts_later_items_down() {
    let mut t = Todo::new(String::from("p"));
    t.add_with_timestamp(String::from("a"), String::from("t1"));
    t.add_with_timestamp(String::from("b"), String::from("t2"));
    t.add_with_timestamp(String::from("c"), String::from("t3"));
    let r = t.remove(1);
    assert!(r.is_ok());
    assert_eq!(t.items.len(), 2);
    assert_eq!(t.items[0].content, "a");
    assert_eq!(t.items[1].content, "c");
    assert_eq!(t.items[1].created_at, "t3");
}

#[test]
fn remove_invalid_leaves_items_untouched() {
    let mut t = Todo::new(String::from("p"));
    t.add_with_timestamp(String::from("a"), String::from("t1"));
    let r = t.remove(1);
    assert_eq!(r, Err(String::from("Invalid index")));
    assert_eq!(t.items.len(), 1);
    assert_eq!(t.items[0].content, "a");
}

#[test]
fn scenario_add_remove_edit() {
    let mut t = Todo::new(String::from("p"));
    t.add(String::from("Buy milk"));
    t.add(String::from("Walk dog"));
    let t2 = t.items[1].created_at.clone();
    assert_eq!(t.items[0].content, "Buy milk");
    assert_eq!(t.items[1].content, "Walk dog");

    assert!(t.remove(0).is_ok());
    assert_eq!(t.items.len(), 1);
    assert_eq!(t.items[0].content, "Walk dog");
    assert_eq!(t.items[0].created_at, t2);

    assert!(t.edit(0, String::from("Walk the dog twice")).is_ok());
    assert_eq!(t.items.len(), 1);
    assert_eq!(t.items[0].content, "Walk the dog twice");
    assert_eq!(t.items[0].created_at, t2);

    assert!(t.remove(5).is_err());
    assert_eq!(t.items.len(), 1);
    assert_eq!(t.items[0].content, "Walk the dog twice");
    assert_eq!(t.items[0].created_at, t2);
}

#[test]
fn store_path_appends_the_file_name() {
    assert_eq!(store_path_in(String::from("/home/someone")), "/home/someone/todo.json");
}

#[test]
fn default_store_path_ends_with_the_file_name() {
    if let Some(p) = default_store_path() {
        assert!(p.ends_with("/todo.json"));
    }
}

#[test]
fn display_string_shows_content_and_timestamp() {
    let mut t = Todo::new(String::from("p"));
    t.add_with_timestamp(String::from("Buy milk"), String::from("2024-01-15 09:30:00"));
    assert_eq!(
        t.items[0].display_string(),
        "Buy milk (2024-01-15 09:30:00)"
    );
}
