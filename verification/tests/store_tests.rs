use tasktrack::date::Date;
use tasktrack::store::{Conn, TodoError};

fn today() -> Date {
    Date { year: 2025, month: 9, day: 11 }
}

fn fresh() -> Conn {
    Conn::build(":memory:").unwrap()
}

#[test]
fn add_then_list_round_trip() {
    let mut conn = fresh();
    conn.add_task("write the report", Some("work"), Some("12-25"), &today())
        .unwrap();
    let tasks = conn.get_task(false, false).unwrap();
    assert_eq!(tasks.len(), 1);
    assert_eq!(tasks[0].info, "write the report");
    assert_eq!(tasks[0].category, Some("work".to_string()));
    assert_eq!(tasks[0].due_date, Some("2025-12-25".to_string()));
    assert_eq!(tasks[0].done, false);
}

#[test]
fn category_inserted_once() {
    let mut conn = fresh();
    conn.add_task("first", Some("errands"), None, &today()).unwrap();
    conn.add_task("second", Some("errands"), None, &today()).unwrap();
    let count: i64 = conn
        .client()
        .query_row(
            "SELECT COUNT(*) FROM categories WHERE name = 'errands'",
            (),
            |row| row.get(0),
        )
        .unwrap();
    assert_eq!(count, 1);
}

#[test]
fn add_rejects_bad_due_date() {
    let mut conn = fresh();
    let r = conn.add_task("a task", None, Some("2025-02-30"), &today());
    assert!(matches!(r, Err(TodoError::Date(_))));
    assert_eq!(conn.get_task(true, true).unwrap().len(), 0);
}

#[test]
fn add_rejects_empty_category() {
    let mut conn = fresh();
    let r = conn.add_task("a task", Some(""), None, &today());
    assert!(matches!(r, Err(TodoError::EmptyCategory)));
    assert_eq!(conn.get_task(true, true).unwrap().len(), 0);
}

#[test]
fn add_rejects_empty_info_through_store() {
    let mut conn = fresh();
    let r = conn.add_task("", None, None, &today());
    assert!(matches!(r, Err(TodoError::Store(_))));
    assert_eq!(conn.get_task(true, true).unwrap().len(), 0);
}

#[test]
fn tasks_without_due_date_list_last() {
    let mut conn = fresh();
    conn.add_task("no due", None, None, &today()).unwrap();
    conn.add_task("late", None, Some("2025-12-01"), &today()).unwrap();
    conn.add_task("also no due", None, None, &today()).unwrap();
    conn.add_task("soon", None, Some("2025-10-01"), &today()).unwrap();
    for sort_by_cat in [false, true] {
        let tasks = conn.get_task(sort_by_cat, false).unwrap();
        assert_eq!(tasks.len(), 4);
        assert_eq!(tasks[0].due_date, Some("2025-10-01".to_string()));
        assert_eq!(tasks[1].due_date, Some("2025-12-01".to_string()));
        assert_eq!(tasks[2].due_date, None);
        assert_eq!(tasks[3].due_date, None);
    }
}

#[test]
fn listing_excludes_done_unless_asked() {
    let mut conn = fresh();
    conn.add_task("open one", None, None, &today()).unwrap();
    conn.add_task("closed one", None, None, &today()).unwrap();
    let id = {
        let tasks = conn.get_task(false, true).unwrap();
        tasks.iter().find(|t| t.info == "closed one").unwrap().id
    };
    conn.edit_task(id, Some(true), None, None, None, false, &today())
        .unwrap();
    let open_only = conn.get_task(false, false).unwrap();
    assert_eq!(open_only.len(), 1);
    assert_eq!(open_only[0].info, "open one");
    let all = conn.get_task(false, true).unwrap();
    assert_eq!(all.len(), 2);
    // unfinished tasks come first
    assert_eq!(all[0].info, "open one");
    assert_eq!(all[1].info, "closed one");
    assert!(all[1].done);
}

#[test]
fn listing_groups_by_category() {
    let mut conn = fresh();
    conn.add_task("b task", Some("beta"), None, &today()).unwrap();
    conn.add_task("a task", Some("alpha"), None, &today()).unwrap();
    conn.add_task("b task again", Some("beta"), None, &today()).unwrap();
    conn.add_task("loose", None, None, &today()).unwrap();
    let tasks = conn.get_task(true, false).unwrap();
    assert_eq!(tasks.len(), 4);
    // uncategorized first, then grouped by category id (creation order)
    assert_eq!(tasks[0].category, None);
    assert_eq!(tasks[1].category, Some("beta".to_string()));
    assert_eq!(tasks[2].category, Some("beta".to_string()));
    assert_eq!(tasks[3].category, Some("alpha".to_string()));
}

#[test]
fn edit_updates_each_field() {
    let mut conn = fresh();
    conn.add_task("original", None, None, &today()).unwrap();
    let id = conn.get_task(false, true).unwrap()[0].id;
    conn.edit_task(
        id,
        Some(true),
        Some("10-31"),
        Some("spooky"),
        Some("renamed"),
        false,
        &today(),
    )
    .unwrap();
    let tasks = conn.get_task(false, true).unwrap();
    assert_eq!(tasks.len(), 1);
    assert_eq!(tasks[0].info, "renamed");
    assert_eq!(tasks[0].done, true);
    assert_eq!(tasks[0].due_date, Some("2025-10-31".to_string()));
    assert_eq!(tasks[0].category, Some("spooky".to_string()));
}

#[test]
fn edit_remove_deletes_the_task() {
    let mut conn = fresh();
    conn.add_task("to go", None, None, &today()).unwrap();
    conn.add_task("to stay", None, None, &today()).unwrap();
    let id = {
        let tasks = conn.get_task(false, true).unwrap();
        tasks.iter().find(|t| t.info == "to go").unwrap().id
    };
    conn.edit_task(id, None, None, None, None, true, &today()).unwrap();
    let tasks = conn.get_task(false, true).unwrap();
    assert_eq!(tasks.len(), 1);
    assert_eq!(tasks[0].info, "to stay");
}

#[test]
fn edit_unknown_id_reports_no_task() {
    let mut conn = fresh();
    conn.add_task("present", None, None, &today()).unwrap();
    let r = conn.edit_task(999, Some(true), None, None, None, false, &today());
    assert!(matches!(r, Err(TodoError::NoTask(999))));
    let r = conn.edit_task(999, None, None, None, None, true, &today());
    assert!(matches!(r, Err(TodoError::NoTask(999))));
}

#[test]
fn edit_rejects_bad_due_date_before_writing() {
    let mut conn = fresh();
    conn.add_task("steady", None, None, &today()).unwrap();
    let id = conn.get_task(false, true).unwrap()[0].id;
    let r = conn.edit_task(id, Some(true), Some("13-40"), None, None, false, &today());
    assert!(matches!(r, Err(TodoError::Date(_))));
    let tasks = conn.get_task(false, true).unwrap();
    assert_eq!(tasks[0].done, false);
}

#[test]
fn edit_creates_missing_category() {
    let mut conn = fresh();
    conn.add_task("uncategorized", None, None, &today()).unwrap();
    let id = conn.get_task(false, true).unwrap()[0].id;
    conn.edit_task(id, None, None, Some("brandnew"), None, false, &today())
        .unwrap();
    let tasks = conn.get_task(false, true).unwrap();
    assert_eq!(tasks[0].category, Some("brandnew".to_string()));
    let count: i64 = conn
        .client()
        .query_row("SELECT COUNT(*) FROM categories WHERE name = 'brandnew'", (), |row| {
            row.get(0)
        })
        .unwrap();
    assert_eq!(count, 1);
}

#[test]
fn due_dates_sort_ascending() {
    let mut conn = fresh();
    conn.add_task("c", None, Some("2026-01-05"), &today()).unwrap();
    conn.add_task("a", None, Some("2025-09-12"), &today()).unwrap();
    conn.add_task("b", None, Some("2025-11-30"), &today()).unwrap();
    let tasks = conn.get_task(false, false).unwrap();
    let dues: Vec<Option<String>> = tasks.into_iter().map(|t| t.due_date).collect();
    assert_eq!(
        dues,
        vec![
            Some("2025-09-12".to_string()),
            Some("2025-11-30".to_string()),
            Some("2026-01-05".to_string()),
        ]
    );
}
