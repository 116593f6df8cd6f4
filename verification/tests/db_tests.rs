use rusqlite::{Error::SqliteFailure, Result, ffi};
use tasktrack::store::Conn;

fn get_test_conn() -> Conn {
    Conn::build(":memory:").unwrap()
}

fn assert_err<T>(res: Result<T>, err_code: i32, err_msg: &str) {
    match res {
        Err(SqliteFailure(err, msg)) => {
            println!("{} : {}", err.extended_code, err_code);
            assert_eq!(err.extended_code, err_code);
            let msg = msg.unwrap();
            println!("{} : {}", msg, err_msg);
            assert_eq!(msg, err_msg);
        }
        _ => panic!("failed to assert_err"),
    }
}

#[test]
fn test_db_invalid_done() {
    let conn = get_test_conn();
    assert_err(
        conn.client()
            .execute("INSERT INTO tasks (info, done) VALUES ('foo', ?)", [2]),
        ffi::SQLITE_CONSTRAINT_CHECK,
        "CHECK constraint failed: done IN (0,1)",
    );
}

#[test]
fn test_db_empty_duedate() {
    let conn = get_test_conn();
    assert!(
        conn.client()
            .execute(
                "INSERT INTO tasks (info, due_date) VALUES ('bar', ?)",
                [Option::<String>::None]
            )
            .is_ok()
    );
}

#[test]
fn test_db_date_format() {
    let conn = get_test_conn();
    assert_err(
        conn.client().execute(
            "INSERT INTO tasks (info, due_date) VALUES ('bar', ?)",
            ["111-1-1".to_string()],
        ),
        ffi::SQLITE_CONSTRAINT_CHECK,
        "CHECK constraint failed: due_date IS NULL OR (due_date GLOB '[0-9][0-9][0-9][0-9]-[0-1][0-9]-[0-3][0-9]' AND date(due_date) IS NOT NULL)",
    );
}

#[test]
fn test_db_invalid_date() {
    let conn = get_test_conn();

    assert_err(
        conn.client().execute(
            "INSERT INTO tasks (info, due_date) VALUES ('bar', ?)",
            ["2025-13-01".to_string()],
        ),
        ffi::SQLITE_CONSTRAINT_CHECK,
        "CHECK constraint failed: due_date IS NULL OR (due_date GLOB '[0-9][0-9][0-9][0-9]-[0-1][0-9]-[0-3][0-9]' AND date(due_date) IS NOT NULL)",
    );
}

#[test]
fn test_db_unique_cat_name() {
    let conn = get_test_conn();

    conn.client()
        .execute("INSERT INTO categories (name) VALUES ('hello')", ())
        .unwrap();

    assert_err(
        conn.client()
            .execute("INSERT INTO categories (name) VALUES ('hello')", ()),
        ffi::SQLITE_CONSTRAINT_UNIQUE,
        "UNIQUE constraint failed: categories.name",
    );
}

#[test]
fn test_db_null_cat_name() {
    assert_err(
        get_test_conn().client().execute(
            "INSERT INTO categories (name) VALUES (?)",
            [Option::<String>::None],
        ),
        ffi::SQLITE_CONSTRAINT_NOTNULL,
        "NOT NULL constraint failed: categories.name",
    );
}

#[test]
fn test_db_null_task_info() {
    let conn = get_test_conn();
    assert_err(
        conn.client().execute(
            "INSERT INTO tasks (info) VALUES (?)",
            [Option::<String>::None],
        ),
        ffi::SQLITE_CONSTRAINT_NOTNULL,
        "NOT NULL constraint failed: tasks.info",
    );
}

#[test]
fn test_db_empty_cat_name() {
    let conn = get_test_conn();
    assert_err(
        conn.client()
            .execute("INSERT INTO categories (name) VALUES ('')", ()),
        ffi::SQLITE_CONSTRAINT_CHECK,
        "CHECK constraint failed: name != ''",
    );
}

#[test]
fn test_db_empty_tasks_info() {
    let conn = get_test_conn();
    assert_err(
        conn.client()
            .execute("INSERT INTO tasks (info) VALUES ('')", ()),
        ffi::SQLITE_CONSTRAINT_CHECK,
        "CHECK constraint failed: info != ''",
    );
}

#[test]
fn open_conn() {
    assert_eq!(
        get_test_conn()
            .client()
            .query_row("SELECT 1 + 1", (), |row| row.get::<_, i32>(0))
            .unwrap(),
        2
    );
}

#[test]
fn valid_insertion() {
    let conn = get_test_conn();

    conn.client()
        .execute("INSERT INTO categories (name) VALUES ('test')", ())
        .unwrap();

    conn.client()
        .execute(
            r"
            INSERT INTO tasks (info, due_date, category)
            VALUES (
                'This is a test',
                '2025-09-23',
                (SELECT id FROM categories WHERE name = 'test')
            )",
            (),
        )
        .unwrap();

    struct TestTask {
        id: i64,
        info: String,
        done: bool,
        due_date: String,
        category: String,
    }

    let row = conn
        .client()
        .query_row(
            r"
            SELECT tasks.id, tasks.info, tasks.done, tasks.due_date, categories.name
            FROM tasks
            JOIN categories ON tasks.category = categories.id
            ",
            (),
            |row| {
                Ok(TestTask {
                    id: row.get(0)?,
                    info: row.get(1)?,
                    done: row.get(2)?,
                    due_date: row.get(3)?,
                    category: row.get(4)?,
                })
            },
        )
        .unwrap();

    assert_eq!(row.id, 1);
    assert_eq!(row.info, "This is a test".to_string());
    assert_eq!(row.done, false);
    assert_eq!(row.due_date, "2025-09-23".to_string());
    assert_eq!(row.category, "test".to_string());
}
