//! The task store facade: add, list and edit tasks kept in the SQLite
//! store, validating due dates through the normalizer first.

use vstd::prelude::*;
use crate::date::{Date, FormatDateError, NormFail, date_valid, format_date, normalize_spec};
use crate::sql::{
    TaskData, cat_insert_rel, create_categories_table, create_tasks_table, db_categories, db_tasks,
    delete_task, has_category, insert_category_if_absent, insert_task, open_db, opt_str_view,
    resolved_category, row_matches, select_tasks, update_category, update_done,
    update_due_date, update_info,
};
use crate::task::{Task, TaskView, sorted_by_key, sort_tasks, views_of};

verus! {

/// A handle to the task store: an open SQLite connection whose two tables
/// were set up by [`Conn::build`].
pub struct Conn {
    client: rusqlite::Connection,
}

/// Why a store operation failed: a due date that does not normalize, an
/// empty category name, no task under the given id, or an error of the
/// underlying store.
#[derive(Debug)]
pub enum TodoError {
    Date(FormatDateError),
    EmptyCategory,
    NoTask(i64),
    Store(rusqlite::Error),
}

/// How the category table relates to its old state after an operation
/// that was handed `category`: untouched without a name, insert-if-absent
/// with one.
pub open spec fn cats_rel(
    old_cats: Map<int, Seq<char>>,
    category: Option<Seq<char>>,
    new_cats: Map<int, Seq<char>>,
) -> bool {
    match category {
        Option::Some(n) => cat_insert_rel(old_cats, n, new_cats),
        Option::None => new_cats == old_cats,
    }
}

/// One fresh unfinished task row with the given fields was added, its
/// category name resolved against `cats`.
pub open spec fn task_added(
    old_tasks: Map<int, TaskData>,
    new_tasks: Map<int, TaskData>,
    cats: Map<int, Seq<char>>,
    info: Seq<char>,
    due: Option<Seq<char>>,
    category: Option<Seq<char>>,
) -> bool {
    exists|id: int, cid: Option<int>|
        id >= 1 && !old_tasks.dom().contains(id) && resolved_category(cats, category, cid)
            && new_tasks == old_tasks.insert(id, (info, false, due, cid))
}

/// The due date that a raw optional expression normalizes to; only
/// meaningful where normalization succeeds.
pub open spec fn normalized_due(due_date: Option<&str>, today: Date) -> Option<Seq<char>> {
    match due_date {
        Option::Some(dd) => Option::Some(normalize_spec(dd@, today)->Ok_0),
        Option::None => Option::None,
    }
}

/// Whether the optional raw due date fails to normalize.
pub open spec fn due_fails(due_date: Option<&str>, today: Date) -> bool {
    match due_date {
        Option::Some(dd) => normalize_spec(dd@, today) is Err,
        Option::None => false,
    }
}

impl Conn {
    /// The category rows of this store's model.
    pub closed spec fn cats(self) -> Map<int, Seq<char>> {
        db_categories(self.client)
    }

    /// The task rows of this store's model.
    pub closed spec fn tasks(self) -> Map<int, TaskData> {
        db_tasks(self.client)
    }

    /// Opens (creating it if missing) the store at `file_path` and makes
    /// sure the two tables exist. What they hold depends on the file, so
    /// nothing is promised of the model.
    pub fn build(file_path: &str) -> (r: Result<Conn, rusqlite::Error>) {
        let mut client = match open_db(file_path) {
            Ok(c) => c,
            Err(e) => {
                return Err(e);
            },
        };
        match create_categories_table(&mut client) {
            Ok(_) => (),
            Err(e) => {
                return Err(e);
            },
        }
        match create_tasks_table(&mut client) {
            Ok(_) => (),
            Err(e) => {
                return Err(e);
            },
        }
        Ok(Conn { client })
    }

    /// The underlying connection, for direct queries against the store.
    pub fn client(&self) -> &rusqlite::Connection {
        &self.client
    }

    /// Adds a task. A due date is normalized against `today` first and a
    /// failure aborts the add untouched; an empty category name is
    /// rejected; a fresh category row is made for an unknown name; then
    /// one fresh unfinished task row is inserted with the given fields.
    pub fn add_task(
        &mut self,
        task: &str,
        category: Option<&str>,
        due_date: Option<&str>,
        today: &Date,
    ) -> (r: Result<(), TodoError>)
        requires
            date_valid(*today),
        ensures
            due_fails(due_date, *today) ==> *final(self) == *old(self) && (r matches Err(e)
                && e matches TodoError::Date(fe) && normalize_spec(
                due_date->0@,
                *today,
            ) == Err::<Seq<char>, NormFail>(fe@)),
            r matches Err(TodoError::Date(_)) ==> due_fails(due_date, *today),
            (!due_fails(due_date, *today) && (category matches Some(c) && c@.len() == 0)) ==> (
            r matches Err(e) && e is EmptyCategory && *final(self) == *old(self)),
            r matches Err(TodoError::EmptyCategory) ==> (category matches Some(c) && c@.len()
                == 0),
            r is Ok ==> !due_fails(due_date, *today) && cats_rel(
                old(self).cats(),
                opt_str_view(category),
                final(self).cats(),
            ) && task_added(
                old(self).tasks(),
                final(self).tasks(),
                final(self).cats(),
                task@,
                normalized_due(due_date, *today),
                opt_str_view(category),
            ),
            r is Err ==> final(self).tasks() == old(self).tasks() && (final(self).cats() == old(
                self,
            ).cats() || (category matches Some(c) && c@.len() > 0 && cat_insert_rel(
                old(self).cats(),
                c@,
                final(self).cats(),
            ))),
    {
        let due_string: Option<String> = match due_date {
            Some(dd) => match format_date(dd, today) {
                Ok(s) => Some(s),
                Err(e) => {
                    return Err(TodoError::Date(e));
                },
            },
            None => None,
        };
        match category {
            Some(c) => {
                if c.is_empty() {
                    return Err(TodoError::EmptyCategory);
                }
                match insert_category_if_absent(&mut self.client, c) {
                    Ok(_) => (),
                    Err(e) => {
                        return Err(TodoError::Store(e));
                    },
                }
            },
            None => (),
        }
        match insert_task(&mut self.client, task, due_string.as_ref(), category) {
            Ok(_) => Ok(()),
            Err(e) => Err(TodoError::Store(e)),
        }
    }
}

/// A listing agrees with the store for the given flags: it is sorted, every
/// entry is a store row that passes the finished-filter, no task appears
/// twice, and every task that passes the filter appears.
pub open spec fn listing_ok(
    tasks: Map<int, TaskData>,
    cats: Map<int, Seq<char>>,
    sort_by_cat: bool,
    include_done: bool,
    out: Seq<TaskView>,
) -> bool {
    &&& sorted_by_key(sort_by_cat, include_done, out)
    &&& forall|i: int|
        0 <= i < out.len() ==> row_matches(tasks, cats, #[trigger] out[i]) && (include_done
            || !out[i].done)
    &&& forall|id: int|
        #[trigger] tasks.dom().contains(id) && (include_done || !tasks[id].1) ==> exists|i: int|
            0 <= i < out.len() && (#[trigger] out[i]).id == id
    &&& forall|i: int, j: int| 0 <= i < j < out.len() ==> out[i].id != out[j].id
}

/// Keeps every row when `include_done` is set, else only the unfinished
/// ones; the result is a subset of the input rows, complete for the
/// filter, with ids still pairwise distinct. The order is not specified.
fn filter_rows(rows: Vec<Task>, include_done: bool) -> (kept: Vec<Task>)
    requires
        forall|i: int, j: int|
            0 <= i < j < views_of(rows@).len() ==> views_of(rows@)[i].id != views_of(rows@)[j].id,
    ensures
        forall|i: int|
            0 <= i < views_of(kept@).len() ==> (include_done || !(#[trigger] views_of(
                kept@,
            )[i]).done) && views_of(rows@).contains(views_of(kept@)[i]),
        forall|j: int|
            0 <= j < views_of(rows@).len() && (include_done || !(#[trigger] views_of(
                rows@,
            )[j]).done) ==> views_of(kept@).contains(views_of(rows@)[j]),
        forall|i: int, j: int|
            0 <= i < j < views_of(kept@).len() ==> views_of(kept@)[i].id != views_of(kept@)[j].id,
{
    let ghost orig = views_of(rows@);
    let mut rows = rows;
    let mut kept: Vec<Task> = Vec::new();
    while rows.len() > 0
        invariant
            rows@.len() <= orig.len(),
            forall|i: int, j: int| 0 <= i < j < orig.len() ==> orig[i].id != orig[j].id,
            views_of(rows@) == orig.take(rows@.len() as int),
            forall|i: int|
                0 <= i < views_of(kept@).len() ==> exists|j: int|
                    rows@.len() <= j < orig.len() && #[trigger] views_of(kept@)[i] == #[trigger] orig[j],
            forall|i: int|
                0 <= i < views_of(kept@).len() ==> (include_done || !(#[trigger] views_of(
                    kept@,
                )[i]).done),
            forall|i: int, j: int|
                0 <= i < j < views_of(kept@).len() ==> views_of(kept@)[i].id != views_of(
                    kept@,
                )[j].id,
            forall|j: int|
                rows@.len() <= j < orig.len() && (include_done || !(#[trigger] orig[j]).done)
                    ==> views_of(kept@).contains(orig[j]),
        decreases rows@.len(),
    {
        let ghost pre_rows = views_of(rows@);
        let ghost pre_kept = views_of(kept@);
        let ghost jnew = rows@.len() - 1;
        let t = rows.pop().unwrap();
        proof {
            assert(pre_rows == orig.take(jnew + 1));
            assert(views_of(rows@) =~= pre_rows.drop_last());
            assert(pre_rows.drop_last() =~= orig.take(jnew));
            assert(t@ == pre_rows[jnew]);
            assert(pre_rows[jnew] == orig[jnew]);
        }
        if include_done || !t.done {
            kept.push(t);
            proof {
                assert(views_of(kept@) =~= pre_kept.push(orig[jnew]));
                assert forall|i1: int, j1: int|
                    0 <= i1 < j1 < views_of(kept@).len() implies views_of(kept@)[i1].id
                    != views_of(kept@)[j1].id by {
                    if j1 == views_of(kept@).len() - 1 {
                        let wit = choose|w: int|
                            jnew + 1 <= w < orig.len() && pre_kept[i1] == #[trigger] orig[w];
                        assert(views_of(kept@)[i1] == orig[wit]);
                        assert(views_of(kept@)[j1] == orig[jnew]);
                        assert(orig[jnew].id != orig[wit].id);
                    }
                }
                assert forall|j: int|
                    rows@.len() <= j < orig.len() && (include_done || !(#[trigger] orig[j]).done)
                        implies views_of(kept@).contains(orig[j]) by {
                    if j == jnew {
                        assert(views_of(kept@)[views_of(kept@).len() - 1] == orig[jnew]);
                    } else {
                        assert(pre_kept.contains(orig[j]));
                        let w = choose|w: int| 0 <= w < pre_kept.len() && pre_kept[w] == orig[j];
                        assert(views_of(kept@)[w] == orig[j]);
                    }
                }
            }
        } else {
            proof {
                assert(orig[jnew].done && !include_done);
                assert(views_of(kept@) == pre_kept);
            }
        }
    }
    proof {
        assert(views_of(rows@).len() == 0);
        assert forall|i: int|
            0 <= i < views_of(kept@).len() implies (include_done || !(#[trigger] views_of(
            kept@,
        )[i]).done) && orig.contains(views_of(kept@)[i]) by {
            let w = choose|w: int|
                rows@.len() <= w < orig.len() && views_of(kept@)[i] == #[trigger] orig[w];
            assert(orig[w] == views_of(kept@)[i]);
        }
    }
    kept
}

/// A permutation of a good filtered row set, once sorted, is a good
/// listing.
proof fn lemma_listing_from_sort(
    tasks: Map<int, TaskData>,
    cats: Map<int, Seq<char>>,
    sort_by_cat: bool,
    include_done: bool,
    keptv: Seq<TaskView>,
    outv: Seq<TaskView>,
)
    requires
        outv.to_multiset() == keptv.to_multiset(),
        sorted_by_key(sort_by_cat, include_done, outv),
        forall|i: int|
            0 <= i < keptv.len() ==> row_matches(tasks, cats, #[trigger] keptv[i]) && (include_done
                || !keptv[i].done),
        forall|i: int, j: int| 0 <= i < j < keptv.len() ==> keptv[i].id != keptv[j].id,
        forall|id: int|
            #[trigger] tasks.dom().contains(id) && (include_done || !tasks[id].1) ==> exists|i: int|
                0 <= i < keptv.len() && (#[trigger] keptv[i]).id == id,
    ensures
        listing_ok(tasks, cats, sort_by_cat, include_done, outv),
{
    broadcast use vstd::seq_lib::group_to_multiset_ensures;
    broadcast use vstd::multiset::group_multiset_axioms;

    assert forall|i: int| 0 <= i < outv.len() implies row_matches(tasks, cats, #[trigger] outv[i])
        && (include_done || !outv[i].done) by {
        assert(outv.contains(outv[i]));
        assert(keptv.to_multiset().contains(outv[i]));
        assert(keptv.contains(outv[i]));
        let w = choose|w: int| 0 <= w < keptv.len() && keptv[w] == outv[i];
        assert(row_matches(tasks, cats, keptv[w]));
    }
    assert forall|id: int|
        #[trigger] tasks.dom().contains(id) && (include_done || !tasks[id].1) implies exists|i: int|
        0 <= i < outv.len() && (#[trigger] outv[i]).id == id by {
        let i0 = choose|i0: int| 0 <= i0 < keptv.len() && (#[trigger] keptv[i0]).id == id;
        assert(keptv.contains(keptv[i0]));
        assert(outv.to_multiset().contains(keptv[i0]));
        assert(outv.contains(keptv[i0]));
        let i1 = choose|i1: int| 0 <= i1 < outv.len() && outv[i1] == keptv[i0];
        assert(outv[i1].id == id);
    }
    assert(keptv.no_duplicates()) by {
        assert forall|a: int, b: int|
            0 <= a < keptv.len() && 0 <= b < keptv.len() && a != b implies keptv[a] != keptv[b] by {
            if keptv[a] == keptv[b] {
                assert(keptv[a].id == keptv[b].id);
            }
        }
    }
    keptv.lemma_multiset_has_no_duplicates();
    outv.lemma_multiset_has_no_duplicates_conv();
    assert forall|i: int, j: int| 0 <= i < j < outv.len() implies outv[i].id != outv[j].id by {
        assert(outv[i] != outv[j]);
        assert(outv.contains(outv[i]) && outv.contains(outv[j]));
        assert(keptv.to_multiset().contains(outv[i]) && keptv.to_multiset().contains(outv[j]));
        assert(keptv.contains(outv[i]) && keptv.contains(outv[j]));
        let a = choose|a: int| 0 <= a < keptv.len() && keptv[a] == outv[i];
        let b = choose|b: int| 0 <= b < keptv.len() && keptv[b] == outv[j];
        assert(a != b);
        assert(keptv[a].id != keptv[b].id);
    }
}

impl Conn {
    /// Lists the tasks: all of them when `include_done` is set, else only
    /// the unfinished ones, sorted for the two flags (see
    /// [`crate::task::task_le`]), with category names resolved.
    pub fn get_task(&self, sort_by_cat: bool, include_done: bool) -> (r: Result<
        Vec<Task>,
        rusqlite::Error,
    >)
        ensures
            r matches Ok(ts) ==> listing_ok(
                self.tasks(),
                self.cats(),
                sort_by_cat,
                include_done,
                views_of(ts@),
            ),
    {
        let rows = match select_tasks(&self.client) {
            Ok(r) => r,
            Err(e) => {
                return Err(e);
            },
        };
        let ghost orig = views_of(rows@);
        let ghost tasks = self.tasks();
        let ghost cats = self.cats();
        let kept = filter_rows(rows, include_done);
        let ghost keptv = views_of(kept@);
        proof {
            assert forall|i: int| 0 <= i < keptv.len() implies row_matches(
                tasks,
                cats,
                #[trigger] keptv[i],
            ) && (include_done || !keptv[i].done) by {
                assert(orig.contains(keptv[i]));
                let w = choose|w: int| 0 <= w < orig.len() && orig[w] == keptv[i];
                assert(row_matches(tasks, cats, orig[w]));
            }
            assert forall|id: int|
                #[trigger] tasks.dom().contains(id) && (include_done || !tasks[id].1) implies exists|
                i: int,
            |
                0 <= i < keptv.len() && (#[trigger] keptv[i]).id == id by {
                let j0 = choose|j0: int| 0 <= j0 < orig.len() && (#[trigger] orig[j0]).id == id;
                assert(row_matches(tasks, cats, orig[j0]));
                assert(orig[j0].done == tasks[id].1);
                assert(keptv.contains(orig[j0]));
                let i0 = choose|i0: int| 0 <= i0 < keptv.len() && keptv[i0] == orig[j0];
                assert(keptv[i0].id == id);
            }
        }
        let sorted = sort_tasks(kept, sort_by_cat, include_done);
        proof {
            lemma_listing_from_sort(
                tasks,
                cats,
                sort_by_cat,
                include_done,
                keptv,
                views_of(sorted@),
            );
        }
        Ok(sorted)
    }
}

/// The fields of one task row after an edit: each supplied field replaces
/// the old one, the rest stay. `cid` is the category row id the supplied
/// name resolved to, used only when a name was supplied.
pub open spec fn patched(
    old_t: TaskData,
    finish: Option<bool>,
    due: Option<Seq<char>>,
    cid: Option<int>,
    cat_given: bool,
    info: Option<Seq<char>>,
) -> TaskData {
    (
        if info is Some {
            info->0
        } else {
            old_t.0
        },
        if finish is Some {
            finish->0
        } else {
            old_t.1
        },
        if due is Some {
            Option::Some(due->0)
        } else {
            old_t.2
        },
        if cat_given {
            cid
        } else {
            old_t.3
        },
    )
}

/// The task under `id` was rewritten with the supplied fields, the
/// supplied category name resolved against the categories as they stand
/// after the edit.
pub open spec fn task_edited(
    old_tasks: Map<int, TaskData>,
    new_tasks: Map<int, TaskData>,
    cats_after: Map<int, Seq<char>>,
    id: int,
    finish: Option<bool>,
    due: Option<Seq<char>>,
    category: Option<Seq<char>>,
    info: Option<Seq<char>>,
) -> bool {
    exists|cid: Option<int>|
        resolved_category(cats_after, category, cid) && new_tasks == old_tasks.insert(
            id,
            patched(old_tasks[id], finish, due, cid, category is Some, info),
        )
}

/// Every task row other than `id` is untouched.
pub open spec fn same_but(
    old_tasks: Map<int, TaskData>,
    new_tasks: Map<int, TaskData>,
    id: int,
) -> bool {
    forall|tid: int|
        tid != id ==> (new_tasks.dom().contains(tid) <==> old_tasks.dom().contains(tid))
            && (old_tasks.dom().contains(tid) ==> #[trigger] new_tasks[tid] == old_tasks[tid])
}

impl Conn {
    /// Edits the task under `id`: each supplied field is written in turn
    /// (finish flag, due date, category, description), and `remove`
    /// deletes the row last. A supplied due date is normalized against
    /// `today` up front, and a supplied category name must be non-empty
    /// and is created if absent; either failure aborts the edit with
    /// nothing written. A field update or removal that matches no row
    /// stops the edit with [`TodoError::NoTask`].
    pub fn edit_task(
        &mut self,
        id: i64,
        finish: Option<bool>,
        due_date: Option<&str>,
        category: Option<&str>,
        info: Option<&str>,
        remove: bool,
        today: &Date,
    ) -> (r: Result<(), TodoError>)
        requires
            date_valid(*today),
        ensures
            due_fails(due_date, *today) ==> *final(self) == *old(self) && (r matches Err(e)
                && e matches TodoError::Date(fe) && normalize_spec(
                due_date->0@,
                *today,
            ) == Err::<Seq<char>, NormFail>(fe@)),
            r matches Err(TodoError::Date(_)) ==> due_fails(due_date, *today),
            (!due_fails(due_date, *today) && (category matches Some(c) && c@.len() == 0)) ==> (
            r matches Err(e) && e is EmptyCategory && *final(self) == *old(self)),
            r matches Err(TodoError::EmptyCategory) ==> (category matches Some(c) && c@.len()
                == 0),
            same_but(old(self).tasks(), final(self).tasks(), id as int),
            final(self).cats() == old(self).cats() || (category matches Some(c) && c@.len() > 0
                && cat_insert_rel(old(self).cats(), c@, final(self).cats())),
            (r is Ok && remove) ==> !final(self).tasks().dom().contains(id as int),
            (r is Ok && !remove && (finish is Some || due_date is Some || category is Some
                || info is Some)) ==> old(self).tasks().dom().contains(id as int) && task_edited(
                old(self).tasks(),
                final(self).tasks(),
                final(self).cats(),
                id as int,
                finish,
                normalized_due(due_date, *today),
                opt_str_view(category),
                opt_str_view(info),
            ),
            (r is Ok && !remove && finish is None && due_date is None && category is None
                && info is None) ==> *final(self) == *old(self),
            r matches Err(TodoError::NoTask(x)) ==> x == id && !old(self).tasks().dom().contains(
                id as int,
            ) && final(self).tasks() == old(self).tasks(),
    {
        let due_string: Option<String> = match due_date {
            Some(dd) => match format_date(dd, today) {
                Ok(s) => Some(s),
                Err(e) => {
                    return Err(TodoError::Date(e));
                },
            },
            None => None,
        };
        match category {
            Some(c) => {
                if c.is_empty() {
                    return Err(TodoError::EmptyCategory);
                }
            },
            None => (),
        }
        let ghost t0 = self.tasks();
        let ghost in_dom = t0.dom().contains(id as int);
        match finish {
            Some(b) => {
                match update_done(&mut self.client, id, b) {
                    Ok(n) => {
                        if n == 0 {
                            return Err(TodoError::NoTask(id));
                        }
                    },
                    Err(e) => {
                        return Err(TodoError::Store(e));
                    },
                }
            },
            None => (),
        }
        let ghost t1 = self.tasks();
        match &due_string {
            Some(ds) => {
                match update_due_date(&mut self.client, id, ds.as_str()) {
                    Ok(n) => {
                        if n == 0 {
                            return Err(TodoError::NoTask(id));
                        }
                    },
                    Err(e) => {
                        return Err(TodoError::Store(e));
                    },
                }
            },
            None => (),
        }
        let ghost t2 = self.tasks();
        match category {
            Some(c) => {
                match insert_category_if_absent(&mut self.client, c) {
                    Ok(_) => (),
                    Err(e) => {
                        return Err(TodoError::Store(e));
                    },
                }
                match update_category(&mut self.client, id, c) {
                    Ok(n) => {
                        if n == 0 {
                            return Err(TodoError::NoTask(id));
                        }
                    },
                    Err(e) => {
                        return Err(TodoError::Store(e));
                    },
                }
            },
            None => (),
        }
        let ghost t3 = self.tasks();
        match info {
            Some(s) => {
                match update_info(&mut self.client, id, s) {
                    Ok(n) => {
                        if n == 0 {
                            return Err(TodoError::NoTask(id));
                        }
                    },
                    Err(e) => {
                        return Err(TodoError::Store(e));
                    },
                }
            },
            None => (),
        }
        let ghost t4 = self.tasks();
        if remove {
            match delete_task(&mut self.client, id) {
                Ok(n) => {
                    if n == 0 {
                        return Err(TodoError::NoTask(id));
                    }
                },
                Err(e) => {
                    return Err(TodoError::Store(e));
                },
            }
        }
        proof {
            if !remove && (finish is Some || due_date is Some || category is Some
                || info is Some) {
                assert(in_dom);
                let cid: Option<int> = if category is Some {
                    t3[id as int].3
                } else {
                    Option::None
                };
                assert(resolved_category(self.cats(), opt_str_view(category), cid));
                assert(t4 =~= t0.insert(
                    id as int,
                    patched(
                        t0[id as int],
                        finish,
                        normalized_due(due_date, *today),
                        cid,
                        category is Some,
                        opt_str_view(info),
                    ),
                ));
                assert(task_edited(
                    t0,
                    t4,
                    self.cats(),
                    id as int,
                    finish,
                    normalized_due(due_date, *today),
                    opt_str_view(category),
                    opt_str_view(info),
                ));
            }
        }
        Ok(())
    }
}

/// Exactly one category row carries `name`.
pub open spec fn exactly_one_category(cats: Map<int, Seq<char>>, name: Seq<char>) -> bool {
    exists|id: int|
        #[trigger] cats.dom().contains(id) && cats[id] == name && (forall|o: int|
            cats.dom().contains(o) && cats[o] == name ==> o == id)
}

/// Insert-if-absent never duplicates a category: after two operations
/// that both asked for the same previously unknown name, exactly one
/// category row carries it.
pub proof fn lemma_category_insert_if_absent(
    c0: Map<int, Seq<char>>,
    c1: Map<int, Seq<char>>,
    c2: Map<int, Seq<char>>,
    name: Seq<char>,
)
    requires
        !has_category(c0, name),
        cat_insert_rel(c0, name, c1),
        cat_insert_rel(c1, name, c2),
    ensures
        exactly_one_category(c2, name),
{
    let i = choose|i: int| i >= 1 && !c0.dom().contains(i) && c1 == c0.insert(i, name);
    assert(c1.dom().contains(i) && c1[i] == name);
    assert(has_category(c1, name));
    assert(c2 == c1);
    assert forall|o: int| c2.dom().contains(o) && c2[o] == name implies o == i by {
        if o != i {
            assert(c0.dom().contains(o));
            assert(c2[o] == c0[o]);
            assert(!has_category(c0, name));
        }
    }
    assert(c2.dom().contains(i) && c2[i] == name);
}

} // verus!
