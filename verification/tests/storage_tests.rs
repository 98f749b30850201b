use todo_cli::todo_list::TodoList;

#[test]
fn serialize_writes_status_prefixed_lines() {
    let mut list = TodoList::new();
    list.add_task("Buy milk".to_owned());
    list.add_task("Dishes".to_owned());
    let _ = list.complete_task(1);
    assert_eq!(list.serialize(), "FBuy milk\nTDishes");
}

#[test]
fn serialize_empty_list_is_empty() {
    let list = TodoList::new();
    assert_eq!(list.serialize(), "");
}

#[test]
fn serialize_writes_no_trailing_newline() {
    let mut list = TodoList::new();
    list.add_task("solo".to_owned());
    assert_eq!(list.serialize(), "Fsolo");
}

#[test]
fn parse_reads_status_and_content() {
    let list = TodoList::parse("TDone thing\nFOpen thing");
    let tasks = list.get_task();
    assert_eq!(tasks.len(), 2);
    assert_eq!(tasks[0].content, "Done thing");
    assert!(tasks[0].completed);
    assert_eq!(tasks[1].content, "Open thing");
    assert!(!tasks[1].completed);
}

#[test]
fn parse_empty_input_gives_empty_list() {
    let list = TodoList::parse("");
    assert_eq!(list.get_task().len(), 0);
}

#[test]
fn parse_skips_malformed_lines() {
    let list = TodoList::parse("Fgood\n\nXbad\nqbad too\nTalso good");
    let tasks = list.get_task();
    assert_eq!(tasks.len(), 2);
    assert_eq!(tasks[0].content, "good");
    assert!(!tasks[0].completed);
    assert_eq!(tasks[1].content, "also good");
    assert!(tasks[1].completed);
}

#[test]
fn parse_trims_line_content() {
    let list = TodoList::parse("F  padded  \r");
    let tasks = list.get_task();
    assert_eq!(tasks.len(), 1);
    assert_eq!(tasks[0].content, "padded");
}

#[test]
fn parse_keeps_empty_content() {
    let list = TodoList::parse("T");
    let tasks = list.get_task();
    assert_eq!(tasks.len(), 1);
    assert_eq!(tasks[0].content, "");
    assert!(tasks[0].completed);
}

#[test]
fn round_trip_preserves_tasks() {
    let mut list = TodoList::new();
    list.add_task("Buy milk".to_owned());
    list.add_task("Make todo cli app".to_owned());
    list.add_task("I love linux".to_owned());
    let _ = list.complete_task(1);
    let reloaded = TodoList::parse(&list.serialize());
    let before = list.get_task();
    let after = reloaded.get_task();
    assert_eq!(after.len(), before.len());
    for i in 0..before.len() {
        assert_eq!(after[i].content, before[i].content);
        assert_eq!(after[i].completed, before[i].completed);
    }
}

#[test]
fn round_trip_of_empty_list() {
    let list = TodoList::new();
    let reloaded = TodoList::parse(&list.serialize());
    assert_eq!(reloaded.get_task().len(), 0);
}

#[test]
fn trim_strips_surrounding_whitespace() {
    assert_eq!(todo_cli::text::trim("  a b  "), "a b");
    assert_eq!(todo_cli::text::trim("\t\r\n"), "");
    assert_eq!(todo_cli::text::trim("tight"), "tight");
    assert_eq!(todo_cli::text::trim(""), "");
}
