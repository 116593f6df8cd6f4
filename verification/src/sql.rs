//! The trusted boundary to the embedded SQLite store (rusqlite).
//!
//! The two tables are modelled by two uninterpreted functions of the
//! connection, [`db_categories`] and [`db_tasks`]; every wrapper below
//! states over them what its one SQL statement does, going by rusqlite's
//! documentation and SQLite's documented statement semantics: a single
//! statement either applies in full or, on failure, changes nothing.
//! The model treats the connection as an exclusive handle to the store:
//! nothing else writes the database file while it is open, and the tables
//! were created by [`create_categories_table`] and [`create_tasks_table`],
//! whose constraints (unique non-empty category names, auto-assigned
//! positive row ids) the contracts lean on.

use vstd::prelude::*;
use crate::task::{Task, TaskView, views_of};

verus! {

#[verifier::external_type_specification]
#[verifier::external_body]
pub struct ExConnection(rusqlite::Connection);

#[verifier::external_type_specification]
#[verifier::external_body]
pub struct ExSqlError(rusqlite::Error);

/// One task row of the model: description, finished flag, canonical due
/// date, and the referenced category row id.
pub type TaskData = (Seq<char>, bool, Option<Seq<char>>, Option<int>);

/// The rows of the `categories` table: row id to category name.
pub uninterp spec fn db_categories(c: rusqlite::Connection) -> Map<int, Seq<char>>;

/// The rows of the `tasks` table, keyed by row id.
pub uninterp spec fn db_tasks(c: rusqlite::Connection) -> Map<int, TaskData>;

/// Whether some category row carries `name`.
pub open spec fn has_category(cats: Map<int, Seq<char>>, name: Seq<char>) -> bool {
    exists|id: int| cats.dom().contains(id) && cats[id] == name
}

/// Insert-if-absent: `new` is `old` when `name` is already a category,
/// else `old` plus one fresh row carrying `name`.
pub open spec fn cat_insert_rel(
    old_cats: Map<int, Seq<char>>,
    name: Seq<char>,
    new_cats: Map<int, Seq<char>>,
) -> bool {
    if has_category(old_cats, name) {
        new_cats == old_cats
    } else {
        exists|id: int|
            id >= 1 && !old_cats.dom().contains(id) && new_cats == old_cats.insert(id, name)
    }
}

/// How an optional category name resolves to an optional row id: no name
/// resolves to no id; a name resolves to a row carrying it, or to no id
/// when no row does.
pub open spec fn resolved_category(
    cats: Map<int, Seq<char>>,
    name: Option<Seq<char>>,
    cid: Option<int>,
) -> bool {
    match name {
        Option::None => cid is None,
        Option::Some(n) => match cid {
            Option::Some(id) => cats.dom().contains(id) && cats[id] == n,
            Option::None => !has_category(cats, n),
        },
    }
}

/// One listing row agrees with the model: the task exists with exactly
/// these fields, and the category name is the left-joined lookup of its
/// row id.
pub open spec fn row_matches(
    tasks: Map<int, TaskData>,
    cats: Map<int, Seq<char>>,
    v: TaskView,
) -> bool {
    &&& tasks.dom().contains(v.id)
    &&& tasks[v.id].0 == v.info
    &&& tasks[v.id].1 == v.done
    &&& tasks[v.id].2 == v.due_date
    &&& tasks[v.id].3 == v.category_id
    &&& match v.category_id {
        Option::Some(cid) => v.category == if cats.dom().contains(cid) {
            Option::Some(cats[cid])
        } else {
            Option::<Seq<char>>::None
        },
        Option::None => v.category is None,
    }
}

/// A row set agrees with the model: every row matches, no task appears
/// twice, and every task appears.
pub open spec fn rows_match_db(
    rows: Seq<TaskView>,
    tasks: Map<int, TaskData>,
    cats: Map<int, Seq<char>>,
) -> bool {
    &&& forall|i: int| 0 <= i < rows.len() ==> row_matches(tasks, cats, #[trigger] rows[i])
    &&& forall|i: int, j: int| 0 <= i < j < rows.len() ==> rows[i].id != rows[j].id
    &&& forall|id: int|
        #[trigger] tasks.dom().contains(id) ==> exists|i: int|
            0 <= i < rows.len() && (#[trigger] rows[i]).id == id
}

/// Relies on `rusqlite::Connection::open`: opens (creating if missing)
/// the database file at `path`. What the tables hold afterwards depends
/// on the file, so nothing is stated about the model.
#[verifier::external_body]
pub(crate) fn open_db(path: &str) -> (r: Result<rusqlite::Connection, rusqlite::Error>) {
    rusqlite::Connection::open(path)
}

/// Relies on `rusqlite::Connection::execute` running `CREATE TABLE IF NOT
/// EXISTS categories (...)`: on success the table exists with an
/// auto-incremented positive id and a unique non-empty name per row. A
/// fresh table is empty, an existing one is untouched, so nothing is
/// stated about the model.
#[verifier::external_body]
pub(crate) fn create_categories_table(c: &mut rusqlite::Connection) -> (r: Result<
    (),
    rusqlite::Error,
>) {
    c.execute(
        "CREATE TABLE IF NOT EXISTS categories (id INTEGER PRIMARY KEY AUTOINCREMENT, name TEXT NOT NULL UNIQUE CHECK(name != ''))",
        (),
    ).map(|_| ())
}

/// Relies on `rusqlite::Connection::execute` running `CREATE TABLE IF NOT
/// EXISTS tasks (...)`: on success the table exists with a positive row
/// id, a non-empty description, a 0/1 finished flag, an optional due date
/// checked to be a real `YYYY-MM-DD` calendar date, and an optional
/// category reference.
#[verifier::external_body]
pub(crate) fn create_tasks_table(c: &mut rusqlite::Connection) -> (r: Result<(), rusqlite::Error>) {
    c.execute(
        "CREATE TABLE IF NOT EXISTS tasks (id INTEGER PRIMARY KEY, info TEXT NOT NULL CHECK(info != ''), done BOOLEAN NOT NULL DEFAULT false CHECK(done IN (0,1)), due_date TEXT CHECK(due_date IS NULL OR (due_date GLOB '[0-9][0-9][0-9][0-9]-[0-1][0-9]-[0-3][0-9]' AND date(due_date) IS NOT NULL)), category INTEGER, FOREIGN KEY(category) REFERENCES categories(id))",
        (),
    ).map(|_| ())
}

/// Relies on `rusqlite::Connection::execute` running `INSERT OR IGNORE
/// INTO categories (name) VALUES (?1)`: with the unique constraint on
/// names, the insert is skipped when a row already carries `name`, else
/// one fresh row with a positive auto-assigned id is added. The name must
/// be non-empty, or the check constraint would make OR IGNORE skip the
/// insert silently. On failure nothing changes.
#[verifier::external_body]
pub(crate) fn insert_category_if_absent(c: &mut rusqlite::Connection, name: &str) -> (r: Result<
    (),
    rusqlite::Error,
>)
    requires
        name@.len() > 0,
    ensures
        r matches Ok(_) ==> cat_insert_rel(
            db_categories(*old(c)),
            name@,
            db_categories(*final(c)),
        ),
        r matches Err(_) ==> db_categories(*final(c)) == db_categories(*old(c)),
        db_tasks(*final(c)) == db_tasks(*old(c)),
{
    c.execute("INSERT OR IGNORE INTO categories (name) VALUES (?1)", (name,)).map(|_| ())
}

/// Relies on `rusqlite::Connection::execute` running `INSERT INTO tasks
/// (info, due_date, category) VALUES (?1, ?2, (SELECT id FROM categories
/// WHERE name = ?3))`: on success one fresh row with a positive id is
/// added, unfinished, with the given fields and the category name
/// resolved to its row id (NULL when the name is NULL or unknown). On
/// failure (e.g. an empty `info` hits the check constraint) nothing
/// changes.
#[verifier::external_body]
pub(crate) fn insert_task(
    c: &mut rusqlite::Connection,
    info: &str,
    due: Option<&String>,
    cat: Option<&str>,
) -> (r: Result<(), rusqlite::Error>)
    ensures
        db_categories(*final(c)) == db_categories(*old(c)),
        r matches Ok(_) ==> exists|id: int, cid: Option<int>|
            id >= 1 && !db_tasks(*old(c)).dom().contains(id) && resolved_category(
                db_categories(*old(c)),
                opt_str_view(cat),
                cid,
            ) && db_tasks(*final(c)) == db_tasks(*old(c)).insert(
                id,
                (info@, false, opt_string_view(due), cid),
            ),
        r matches Err(_) ==> db_tasks(*final(c)) == db_tasks(*old(c)),
{
    c.execute(
        "INSERT INTO tasks (info, due_date, category) VALUES (?1, ?2, (SELECT id FROM categories WHERE name = ?3))",
        (info, due, cat),
    ).map(|_| ())
}

pub open spec fn opt_str_view(s: Option<&str>) -> Option<Seq<char>> {
    match s {
        Option::Some(x) => Option::Some(x@),
        Option::None => Option::None,
    }
}

pub open spec fn opt_string_view(s: Option<&String>) -> Option<Seq<char>> {
    match s {
        Option::Some(x) => Option::Some(x@),
        Option::None => Option::None,
    }
}

/// Relies on `rusqlite::Connection::prepare` and
/// `rusqlite::Statement::query_map`: reads every task row left-joined
/// with its category name, in whatever order SQLite returns them.
#[verifier::external_body]
pub(crate) fn select_tasks(c: &rusqlite::Connection) -> (r: Result<Vec<Task>, rusqlite::Error>)
    ensures
        r matches Ok(rows) ==> rows_match_db(views_of(rows@), db_tasks(*c), db_categories(*c)),
{
    let mut stmt = c.prepare(
        "SELECT tasks.id, tasks.info, tasks.done, tasks.due_date, tasks.category, categories.name FROM tasks LEFT JOIN categories ON tasks.category = categories.id",
    )?;
    let rows = stmt.query_map((), |row| {
        Ok(Task {
            id: row.get(0)?,
            info: row.get(1)?,
            done: row.get(2)?,
            due_date: row.get(3)?,
            category_id: row.get(4)?,
            category: row.get(5)?,
        })
    })?;
    rows.collect()
}

/// Relies on `rusqlite::Connection::execute` running `UPDATE tasks SET
/// done = ?1 WHERE id = ?2`: on success the count of matched rows comes
/// back and the one matching row, if any, has its flag replaced. On
/// failure nothing changes.
#[verifier::external_body]
pub(crate) fn update_done(c: &mut rusqlite::Connection, id: i64, val: bool) -> (r: Result<
    usize,
    rusqlite::Error,
>)
    ensures
        db_categories(*final(c)) == db_categories(*old(c)),
        r matches Ok(n) ==> ({
            let t = db_tasks(*old(c));
            if t.dom().contains(id as int) {
                n == 1 && db_tasks(*final(c)) == t.insert(
                    id as int,
                    (t[id as int].0, val, t[id as int].2, t[id as int].3),
                )
            } else {
                n == 0 && db_tasks(*final(c)) == t
            }
        }),
        r matches Err(_) ==> db_tasks(*final(c)) == db_tasks(*old(c)),
{
    c.execute("UPDATE tasks SET done = ?1 WHERE id = ?2", (val, id))
}

/// Relies on `rusqlite::Connection::execute` running `UPDATE tasks SET
/// info = ?1 WHERE id = ?2`: as [`update_done`], for the description; an
/// empty description fails the check constraint and changes nothing.
#[verifier::external_body]
pub(crate) fn update_info(c: &mut rusqlite::Connection, id: i64, info: &str) -> (r: Result<
    usize,
    rusqlite::Error,
>)
    ensures
        db_categories(*final(c)) == db_categories(*old(c)),
        r matches Ok(n) ==> ({
            let t = db_tasks(*old(c));
            if t.dom().contains(id as int) {
                n == 1 && db_tasks(*final(c)) == t.insert(
                    id as int,
                    (info@, t[id as int].1, t[id as int].2, t[id as int].3),
                )
            } else {
                n == 0 && db_tasks(*final(c)) == t
            }
        }),
        r matches Err(_) ==> db_tasks(*final(c)) == db_tasks(*old(c)),
{
    c.execute("UPDATE tasks SET info = ?1 WHERE id = ?2", (info, id))
}

/// Relies on `rusqlite::Connection::execute` running `UPDATE tasks SET
/// due_date = ?1 WHERE id = ?2`: as [`update_done`], for the due date; a
/// string that is not a valid `YYYY-MM-DD` date fails the check
/// constraint and changes nothing.
#[verifier::external_body]
pub(crate) fn update_due_date(c: &mut rusqlite::Connection, id: i64, due: &str) -> (r: Result<
    usize,
    rusqlite::Error,
>)
    ensures
        db_categories(*final(c)) == db_categories(*old(c)),
        r matches Ok(n) ==> ({
            let t = db_tasks(*old(c));
            if t.dom().contains(id as int) {
                n == 1 && db_tasks(*final(c)) == t.insert(
                    id as int,
                    (t[id as int].0, t[id as int].1, Option::Some(due@), t[id as int].3),
                )
            } else {
                n == 0 && db_tasks(*final(c)) == t
            }
        }),
        r matches Err(_) ==> db_tasks(*final(c)) == db_tasks(*old(c)),
{
    c.execute("UPDATE tasks SET due_date = ?1 WHERE id = ?2", (due, id))
}

/// Relies on `rusqlite::Connection::execute` running `UPDATE tasks SET
/// category = (SELECT id FROM categories WHERE name = ?1) WHERE id = ?2`:
/// as [`update_done`], with the category name resolved to its row id
/// (NULL when no row carries the name).
#[verifier::external_body]
pub(crate) fn update_category(c: &mut rusqlite::Connection, id: i64, name: &str) -> (r: Result<
    usize,
    rusqlite::Error,
>)
    ensures
        db_categories(*final(c)) == db_categories(*old(c)),
        r matches Ok(n) ==> exists|cid: Option<int>|
            resolved_category(db_categories(*old(c)), Option::Some(name@), cid) && ({
                let t = db_tasks(*old(c));
                if t.dom().contains(id as int) {
                    n == 1 && db_tasks(*final(c)) == t.insert(
                        id as int,
                        (t[id as int].0, t[id as int].1, t[id as int].2, cid),
                    )
                } else {
                    n == 0 && db_tasks(*final(c)) == t
                }
            }),
        r matches Err(_) ==> db_tasks(*final(c)) == db_tasks(*old(c)),
{
    c.execute(
        "UPDATE tasks SET category = (SELECT id FROM categories WHERE name = ?1) WHERE id = ?2",
        (name, id),
    )
}

/// Relies on `rusqlite::Connection::execute` running `DELETE FROM tasks
/// WHERE id = ?1`: on success the count of matched rows comes back and
/// the one matching row, if any, is gone. On failure nothing changes.
#[verifier::external_body]
pub(crate) fn delete_task(c: &mut rusqlite::Connection, id: i64) -> (r: Result<
    usize,
    rusqlite::Error,
>)
    ensures
        db_categories(*final(c)) == db_categories(*old(c)),
        r matches Ok(n) ==> ({
            let t = db_tasks(*old(c));
            if t.dom().contains(id as int) {
                n == 1 && db_tasks(*final(c)) == t.remove(id as int)
            } else {
                n == 0 && db_tasks(*final(c)) == t
            }
        }),
        r matches Err(_) ==> db_tasks(*final(c)) == db_tasks(*old(c)),
{
    c.execute("DELETE FROM tasks WHERE id = ?1", (id,))
}

} // verus!
