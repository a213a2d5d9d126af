use todo_core::storage::{load_tasks, save_tasks};
use todo_core::task::Task;
use todo_core::todo_list::ToDoList;

#[test]
fn test_save_and_load_success() {
    let mut todo_list = ToDoList::new();
    let id = todo_list.add_task(
        "Persistent task".to_string(),
        Some("2023-12-01".to_string()),
    );
    let saved = todo_list.save().expect("Failed to save tasks");
    let loaded = ToDoList::load(Some(saved.as_str())).expect("Failed to load tasks");
    let tasks = loaded.list_tasks(None);
    assert_eq!(tasks.len(), 1);
    assert_eq!(tasks[0].id, id);
    assert_eq!(tasks[0].description, "Persistent task");
}

#[test]
fn test_save_with_no_tasks() {
    let todo_list = ToDoList::new();
    let saved = todo_list.save().expect("Failed to save empty list");
    let loaded = ToDoList::load(Some(saved.as_str())).expect("Failed to load empty list");
    let tasks = loaded.list_tasks(None);
    assert!(tasks.is_empty());
}

#[test]
fn test_load_missing_store_is_empty() {
    let loaded = ToDoList::load(None).expect("A missing store should load as empty");
    assert!(loaded.tasks.is_empty());
    assert_eq!(loaded.next_id, 1);
}

#[test]
fn test_load_corrupted_store() {
    let result = ToDoList::load(Some("not json"));
    assert!(result.is_err()); // Should fail gracefully
    assert_eq!(result.unwrap_err(), "malformed task store");
    assert!(load_tasks(Some("invalid json")).is_err());
}

#[test]
fn test_load_duplicate_ids_rejected() {
    let text = "[{\"id\":1,\"description\":\"a\",\"completed\":false,\"due_date\":null},\
                {\"id\":1,\"description\":\"b\",\"completed\":false,\"due_date\":null}]";
    let result = ToDoList::load(Some(text));
    assert_eq!(result.unwrap_err(), "duplicate task id");
}

#[test]
fn test_save_exact_store_text() {
    let mut todo_list = ToDoList::new();
    todo_list.add_task("Buy milk".to_string(), Some("2023-12-01".to_string()));
    let saved = todo_list.save().expect("Failed to save tasks");
    assert_eq!(
        saved,
        "[{\"id\":1,\"description\":\"Buy milk\",\"completed\":false,\"due_date\":\"2023-12-01\"}]"
    );
}

#[test]
fn test_save_empty_store_text() {
    let todo_list = ToDoList::new();
    assert_eq!(todo_list.save().expect("Failed to save"), "[]");
}

#[test]
fn test_round_trip_escaped_characters() {
    let tasks = vec![Task {
        id: 7,
        description: "say \"hi\" with a \\ backslash".to_string(),
        completed: true,
        due_date: None,
    }];
    let text = save_tasks(&tasks);
    let back = load_tasks(Some(text.as_str())).expect("Failed to reload escaped text");
    assert_eq!(back.len(), 1);
    assert_eq!(back[0].id, 7);
    assert_eq!(back[0].description, "say \"hi\" with a \\ backslash");
    assert!(back[0].completed);
    assert_eq!(back[0].due_date, None);
}

#[test]
fn test_round_trip_after_operations() {
    let mut todo_list = ToDoList::new();
    let id1 = todo_list.add_task("One".to_string(), None);
    let id2 = todo_list.add_task("Two".to_string(), Some("2024-06-01".to_string()));
    let _id3 = todo_list.add_task("Three".to_string(), None);
    todo_list.complete_task(id2);
    todo_list.remove_task(id1);
    let saved = todo_list.save().expect("Failed to save tasks");
    let loaded = ToDoList::load(Some(saved.as_str())).expect("Failed to load tasks");
    assert_eq!(loaded.tasks.len(), todo_list.tasks.len());
    for (a, b) in loaded.tasks.iter().zip(todo_list.tasks.iter()) {
        assert_eq!(a.id, b.id);
        assert_eq!(a.description, b.description);
        assert_eq!(a.completed, b.completed);
        assert_eq!(a.due_date, b.due_date);
    }
    // next_id is recomputed as one past the greatest stored id
    assert_eq!(loaded.next_id, 4);
}

#[test]
fn test_load_next_id_past_max() {
    let text = "[{\"id\":9,\"description\":\"late\",\"completed\":true,\"due_date\":null},\
                {\"id\":3,\"description\":\"early\",\"completed\":false,\"due_date\":null}]";
    let loaded = ToDoList::load(Some(text)).expect("Failed to load tasks");
    assert_eq!(loaded.next_id, 10);
    assert_eq!(loaded.tasks[0].id, 9);
    assert_eq!(loaded.tasks[1].id, 3);
}

#[test]
fn test_load_trailing_text_rejected() {
    let result = load_tasks(Some("[] extra"));
    assert!(result.is_err());
}
