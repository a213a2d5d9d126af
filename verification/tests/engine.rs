use todo_core::commands::{parse_command, Command};
use todo_core::todo_list::ToDoList;

#[test]
fn test_add_task_valid() {
    let mut todo_list = ToDoList::new();
    let id = todo_list.add_task("Task 1".to_string(), None);
    let tasks = todo_list.list_tasks(None);
    assert_eq!(tasks.len(), 1);
    assert_eq!(tasks[0].description, "Task 1");
    assert_eq!(tasks[0].id, id); // ID matches the one returned by add_task
}

#[test]
fn test_add_task_empty_description() {
    let mut todo_list = ToDoList::new();
    let _id = todo_list.add_task("".to_string(), None);
    let tasks = todo_list.list_tasks(None);
    assert_eq!(tasks.len(), 1);
    assert_eq!(tasks[0].description, ""); // Tests behavior with empty description
}

#[test]
fn test_complete_task_valid() {
    let mut todo_list = ToDoList::new();
    let id = todo_list.add_task("Task to complete".to_string(), None);
    todo_list.complete_task(id);
    let tasks = todo_list.list_tasks(None);
    assert!(tasks[0].completed);
}

#[test]
fn test_complete_task_nonexistent() {
    let mut todo_list = ToDoList::new();
    todo_list.complete_task(999); // Should not panic, just do nothing
    let tasks = todo_list.list_tasks(None);
    assert!(tasks.is_empty());
}

#[test]
fn test_remove_task_valid() {
    let mut todo_list = ToDoList::new();
    let id = todo_list.add_task("Task to remove".to_string(), None);
    todo_list.remove_task(id);
    let tasks = todo_list.list_tasks(None);
    assert!(tasks.is_empty());
}

#[test]
fn test_remove_task_nonexistent() {
    let mut todo_list = ToDoList::new();
    let id = todo_list.add_task("Remaining task".to_string(), None);
    todo_list.remove_task(999); // Should not affect existing tasks
    let tasks = todo_list.list_tasks(None);
    assert_eq!(tasks.len(), 1);
    assert_eq!(tasks[0].id, id);
}

#[test]
fn test_list_tasks_all() {
    let mut todo_list = ToDoList::new();
    let _id1 = todo_list.add_task("Task 1".to_string(), None);
    let _id2 = todo_list.add_task("Task 2".to_string(), None);
    let tasks = todo_list.list_tasks(None);
    assert_eq!(tasks.len(), 2);
}

#[test]
fn test_list_tasks_pending_only() {
    let mut todo_list = ToDoList::new();
    let id1 = todo_list.add_task("Pending".to_string(), None);
    let id2 = todo_list.add_task("Completed".to_string(), None);
    todo_list.complete_task(id2);
    let pending = todo_list.list_tasks(Some("pending".to_string()));
    assert_eq!(pending.len(), 1);
    assert_eq!(pending[0].id, id1);
    assert_eq!(pending[0].description, "Pending");
}

#[test]
fn test_list_tasks_completed_only() {
    let mut todo_list = ToDoList::new();
    let _id1 = todo_list.add_task("Pending".to_string(), None);
    let id2 = todo_list.add_task("Completed".to_string(), None);
    todo_list.complete_task(id2);
    let completed = todo_list.list_tasks(Some("completed".to_string()));
    assert_eq!(completed.len(), 1);
    assert_eq!(completed[0].id, id2);
    assert_eq!(completed[0].description, "Completed");
}

#[test]
fn test_list_tasks_empty() {
    let todo_list = ToDoList::new();
    let tasks = todo_list.list_tasks(None);
    assert!(tasks.is_empty());
}

#[test]
fn test_complete_task_twice_is_idempotent() {
    let mut once = ToDoList::new();
    let id = once.add_task("Repeat".to_string(), None);
    once.complete_task(id);
    let mut twice = ToDoList::new();
    let id2 = twice.add_task("Repeat".to_string(), None);
    twice.complete_task(id2);
    twice.complete_task(id2);
    let a = once.list_tasks(None);
    let b = twice.list_tasks(None);
    assert_eq!(a.len(), b.len());
    assert_eq!(a[0].id, b[0].id);
    assert_eq!(a[0].description, b[0].description);
    assert_eq!(a[0].completed, b[0].completed);
    assert_eq!(a[0].due_date, b[0].due_date);
}

#[test]
fn test_complete_task_reports_found() {
    let mut todo_list = ToDoList::new();
    let id = todo_list.add_task("Find me".to_string(), None);
    assert!(todo_list.complete_task(id));
    assert!(!todo_list.complete_task(id + 1));
}

#[test]
fn test_ids_never_reused_after_removal() {
    let mut todo_list = ToDoList::new();
    let id1 = todo_list.add_task("First".to_string(), None);
    todo_list.remove_task(id1);
    let id2 = todo_list.add_task("Second".to_string(), None);
    assert_ne!(id1, id2);
    assert!(id2 > id1);
}

#[test]
fn test_full_workflow() {
    let mut todo_list = ToDoList::new();
    todo_list.add_task("Integration task".to_string(), None);
    assert_eq!(todo_list.tasks.len(), 1);

    let saved = todo_list.save().expect("Failed to save tasks");
    let loaded = ToDoList::load(Some(saved.as_str())).expect("Failed to load tasks");
    assert_eq!(loaded.tasks.len(), 1);
    assert_eq!(loaded.tasks[0].description, "Integration task");

    let id = loaded.tasks[0].id;
    let command = parse_command(&format!("complete {}", id)).expect("Failed to parse complete");
    if let Command::Complete(task_id) = command {
        todo_list.complete_task(task_id);
    }
    assert!(todo_list.tasks[0].completed);
}

#[test]
fn test_buy_milk_scenario() {
    let mut todo_list = ToDoList::new();
    let id = todo_list.add_task("Buy milk".to_string(), Some("2023-12-01".to_string()));
    let pending = todo_list.list_tasks(Some("pending".to_string()));
    assert_eq!(pending.len(), 1);
    assert_eq!(pending[0].description, "Buy milk");
    assert_eq!(pending[0].due_date, Some("2023-12-01".to_string()));

    todo_list.complete_task(id);
    let completed = todo_list.list_tasks(Some("completed".to_string()));
    assert_eq!(completed.len(), 1);
    assert_eq!(completed[0].id, id);
    assert!(todo_list.list_tasks(Some("pending".to_string())).is_empty());

    todo_list.remove_task(id);
    assert!(todo_list.list_tasks(None).is_empty());
}

#[test]
fn test_list_tasks_unknown_filter_lists_all() {
    let mut todo_list = ToDoList::new();
    let id1 = todo_list.add_task("One".to_string(), None);
    let id2 = todo_list.add_task("Two".to_string(), None);
    todo_list.complete_task(id2);
    let tasks = todo_list.list_tasks(Some("everything".to_string()));
    assert_eq!(tasks.len(), 2);
    assert_eq!(tasks[0].id, id1);
    assert_eq!(tasks[1].id, id2);
}
