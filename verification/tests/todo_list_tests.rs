use todo_cli::todo_list::{TodoError, TodoList};

#[test]
fn add_task_test() {
    let mut todo_list = TodoList::new();
    let len_before = todo_list.get_task().len();
    todo_list.add_task("Buy milk".to_owned());
    todo_list.add_task("Make todo cli app".to_owned());
    let len_after = todo_list.get_task().len();
    assert_eq!((len_after - len_before), 2 as usize);
}

#[test]
fn remove_task_test() {
    let mut todo_list = TodoList::new();
    todo_list.add_task("Buy milk".to_owned());
    todo_list.add_task("Make todo cli app".to_owned());
    todo_list.add_task("I love linux".to_owned());
    let len_before = todo_list.get_task().len();
    let _ = todo_list.remove_task(1);
    let len_after = todo_list.get_task().len();
    assert_eq!((len_before - len_after), 1 as usize);
}

#[test]
fn update_task_test() {
    let mut todo_list = TodoList::new();
    todo_list.add_task("Buy milk".to_owned());
    todo_list.add_task("Make todo cli app".to_owned());
    todo_list.add_task("I love linux".to_owned());
    let _ = todo_list.update_task(1, "Make the greatest todo app ever".to_owned());
    assert_eq!(
        todo_list.get_task()[1].content,
        "Make the greatest todo app ever"
    );
}

#[test]
fn change_status_test() {
    let mut todo_list = TodoList::new();
    todo_list.add_task("Buy milk".to_owned());
    todo_list.add_task("Make todo cli app".to_owned());
    todo_list.add_task("I love linux".to_owned());
    let _ = todo_list.complete_task(1);
    assert!(todo_list.get_task()[1].completed);
    let _ = todo_list.uncomplete_task(1);
    assert!(!todo_list.get_task()[1].completed);
}

#[test]
fn purge_test() {
    let mut todo_list = TodoList::new();
    todo_list.add_task("Buy milk".to_owned());
    todo_list.add_task("Make todo cli app".to_owned());
    todo_list.add_task("I love linux".to_owned());
    todo_list.purge();
    assert_eq!(todo_list.get_task().len(), 0 as usize);
}

#[test]
fn adds_keep_order_and_start_incomplete() {
    let mut list = TodoList::new();
    list.add_task("first".to_owned());
    list.add_task("second".to_owned());
    list.add_task("third".to_owned());
    let tasks = list.get_task();
    assert_eq!(tasks.len(), 3);
    assert_eq!(tasks[0].content, "first");
    assert_eq!(tasks[1].content, "second");
    assert_eq!(tasks[2].content, "third");
    assert!(!tasks[0].completed);
    assert!(!tasks[1].completed);
    assert!(!tasks[2].completed);
}

#[test]
fn add_trims_content() {
    let mut list = TodoList::new();
    list.add_task("  spaced out \t".to_owned());
    assert_eq!(list.get_task()[0].content, "spaced out");
}

#[test]
fn remove_shifts_later_tasks_down() {
    let mut list = TodoList::new();
    list.add_task("a".to_owned());
    list.add_task("b".to_owned());
    list.add_task("c".to_owned());
    let r = list.remove_task(1);
    assert_eq!(r, Ok(()));
    let tasks = list.get_task();
    assert_eq!(tasks.len(), 2);
    assert_eq!(tasks[0].content, "a");
    assert_eq!(tasks[1].content, "c");
}

#[test]
fn remove_out_of_range_reports_and_changes_nothing() {
    let mut list = TodoList::new();
    list.add_task("only".to_owned());
    let r = list.remove_task(1);
    assert_eq!(r, Err(TodoError::OutOfRange));
    assert_eq!(list.get_task().len(), 1);
    assert_eq!(list.get_task()[0].content, "only");
    let r2 = list.remove_task(255);
    assert_eq!(r2, Err(TodoError::OutOfRange));
    assert_eq!(list.get_task().len(), 1);
}

#[test]
fn update_trims_and_keeps_flag() {
    let mut list = TodoList::new();
    list.add_task("old text".to_owned());
    let _ = list.complete_task(0);
    let r = list.update_task(0, "  new text  ".to_owned());
    assert_eq!(r, Ok(()));
    assert_eq!(list.get_task()[0].content, "new text");
    assert!(list.get_task()[0].completed);
}

#[test]
fn update_out_of_range_reports_and_changes_nothing() {
    let mut list = TodoList::new();
    list.add_task("stay".to_owned());
    let r = list.update_task(3, "gone".to_owned());
    assert_eq!(r, Err(TodoError::OutOfRange));
    assert_eq!(list.get_task()[0].content, "stay");
}

#[test]
fn set_completed_round_trips() {
    let mut list = TodoList::new();
    list.add_task("flag me".to_owned());
    assert!(!list.get_task()[0].completed);
    let r = list.set_completed(0, true);
    assert_eq!(r, Ok(()));
    assert!(list.get_task()[0].completed);
    let r2 = list.set_completed(0, false);
    assert_eq!(r2, Ok(()));
    assert!(!list.get_task()[0].completed);
}

#[test]
fn set_completed_out_of_range_reports() {
    let mut list = TodoList::new();
    let r = list.set_completed(0, true);
    assert_eq!(r, Err(TodoError::OutOfRange));
    assert_eq!(list.get_task().len(), 0);
}

#[test]
fn clean_drops_completed_keeps_order() {
    let mut list = TodoList::new();
    list.add_task("keep one".to_owned());
    list.add_task("drop one".to_owned());
    list.add_task("keep two".to_owned());
    list.add_task("drop two".to_owned());
    let _ = list.complete_task(1);
    let _ = list.complete_task(3);
    list.clean();
    let tasks = list.get_task();
    assert_eq!(tasks.len(), 2);
    assert_eq!(tasks[0].content, "keep one");
    assert_eq!(tasks[1].content, "keep two");
    assert!(!tasks[0].completed);
    assert!(!tasks[1].completed);
}

#[test]
fn clean_of_all_completed_empties_the_list() {
    let mut list = TodoList::new();
    list.add_task("a".to_owned());
    list.add_task("b".to_owned());
    let _ = list.complete_task(0);
    let _ = list.complete_task(1);
    list.clean();
    assert_eq!(list.get_task().len(), 0);
}

#[test]
fn error_message_text() {
    let e = TodoError::OutOfRange;
    assert_eq!(e.message(), "Index out of task range");
}

#[test]
fn full_session_scenario() {
    let mut list = TodoList::new();
    assert_eq!(list.get_task().len(), 0);
    list.add_task("Buy milk".to_owned());
    list.add_task("Make todo cli app".to_owned());
    list.add_task("I love linux".to_owned());
    assert_eq!(list.get_task().len(), 3);
    assert!(list.get_task().iter().all(|t| !t.completed));
    assert_eq!(list.get_task()[0].content, "Buy milk");
    assert_eq!(list.get_task()[1].content, "Make todo cli app");
    assert_eq!(list.get_task()[2].content, "I love linux");
    let r = list.remove_task(1);
    assert_eq!(r, Ok(()));
    assert_eq!(list.get_task().len(), 2);
    assert_eq!(list.get_task()[0].content, "Buy milk");
    assert_eq!(list.get_task()[1].content, "I love linux");
    let r = list.update_task(1, "Make the greatest todo app ever".to_owned());
    assert_eq!(r, Ok(()));
    assert_eq!(list.get_task()[1].content, "Make the greatest todo app ever");
    let r = list.set_completed(1, true);
    assert_eq!(r, Ok(()));
    assert!(list.get_task()[1].completed);
    let r = list.set_completed(1, false);
    assert_eq!(r, Ok(()));
    assert!(!list.get_task()[1].completed);
    list.purge();
    assert_eq!(list.get_task().len(), 0);
}
