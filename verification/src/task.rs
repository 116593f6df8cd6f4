//! Tasks as returned by a listing, and the listing order.
//!
//! A listing is sorted by up to three keys, tried in order: finished tasks
//! after unfinished ones (only when finished tasks are included), then the
//! category identifier (only when grouping by category; uncategorized tasks
//! come first, as a missing key sorts lowest), and finally the due date in
//! ascending text order with tasks that have no due date last.

use vstd::prelude::*;
use vstd::seq_lib::group_to_multiset_ensures;
use vstd::multiset::Multiset;
use crate::text::chars_of;

verus! {

/// One task row of a listing, with its category resolved to a name.
#[derive(Debug)]
pub struct Task {
    pub id: i64,
    pub info: String,
    pub done: bool,
    pub due_date: Option<String>,
    pub category_id: Option<i64>,
    pub category: Option<String>,
}

/// The mathematical content of a [`Task`].
pub struct TaskView {
    pub id: int,
    pub info: Seq<char>,
    pub done: bool,
    pub due_date: Option<Seq<char>>,
    pub category_id: Option<int>,
    pub category: Option<Seq<char>>,
}

impl View for Task {
    type V = TaskView;

    open spec fn view(&self) -> TaskView {
        TaskView {
            id: self.id as int,
            info: self.info@,
            done: self.done,
            due_date: match self.due_date {
                Some(ref s) => Some(s@),
                None => None,
            },
            category_id: match self.category_id {
                Some(i) => Some(i as int),
                None => None,
            },
            category: match self.category {
                Some(ref s) => Some(s@),
                None => None,
            },
        }
    }
}

pub open spec fn views_of(ts: Seq<Task>) -> Seq<TaskView> {
    ts.map_values(|t: Task| t@)
}

/// Lexicographic text order by character code; a prefix sorts before its
/// extensions.
pub open spec fn lex_le_chars(a: Seq<char>, b: Seq<char>) -> bool
    decreases a.len(),
{
    if a.len() == 0 {
        true
    } else if b.len() == 0 {
        false
    } else if a.first() < b.first() {
        true
    } else if b.first() < a.first() {
        false
    } else {
        lex_le_chars(a.drop_first(), b.drop_first())
    }
}

/// Due-date key: dates in ascending text order, no due date last.
pub open spec fn due_le(a: Option<Seq<char>>, b: Option<Seq<char>>) -> bool {
    match (a, b) {
        (Option::None, _) => b is None,
        (Option::Some(_), Option::None) => true,
        (Option::Some(x), Option::Some(y)) => lex_le_chars(x, y),
    }
}

/// Category key: ascending identifier, no category first.
pub open spec fn cat_le(a: Option<int>, b: Option<int>) -> bool {
    match (a, b) {
        (Option::None, _) => true,
        (Option::Some(_), Option::None) => false,
        (Option::Some(x), Option::Some(y)) => x <= y,
    }
}

/// The listing order for one choice of flags: finished-last (only when
/// finished tasks are included), then category (only when grouping), then
/// due date with no-due-date last.
pub open spec fn task_le(sort_by_cat: bool, include_done: bool, a: TaskView, b: TaskView) -> bool {
    if include_done && a.done != b.done {
        !a.done
    } else if sort_by_cat && a.category_id != b.category_id {
        cat_le(a.category_id, b.category_id)
    } else {
        due_le(a.due_date, b.due_date)
    }
}

/// Sortedness of a listing under [`task_le`].
pub open spec fn sorted_by_key(sort_by_cat: bool, include_done: bool, s: Seq<TaskView>) -> bool {
    forall|i: int, j: int|
        0 <= i < j < s.len() ==> task_le(sort_by_cat, include_done, s[i], s[j])
}

proof fn lemma_lex_le_total(a: Seq<char>, b: Seq<char>)
    ensures
        lex_le_chars(a, b) || lex_le_chars(b, a),
    decreases a.len(),
{
    if a.len() > 0 && b.len() > 0 && a.first() == b.first() {
        lemma_lex_le_total(a.drop_first(), b.drop_first());
    }
}

proof fn lemma_lex_le_trans(a: Seq<char>, b: Seq<char>, c: Seq<char>)
    requires
        lex_le_chars(a, b),
        lex_le_chars(b, c),
    ensures
        lex_le_chars(a, c),
    decreases a.len(),
{
    if a.len() > 0 && b.len() > 0 && c.len() > 0 && a.first() == b.first() && b.first()
        == c.first() {
        lemma_lex_le_trans(a.drop_first(), b.drop_first(), c.drop_first());
    }
}

/// The listing order is total: of any two tasks, one comes no later than
/// the other.
pub proof fn lemma_task_le_total(sc: bool, id: bool, a: TaskView, b: TaskView)
    ensures
        task_le(sc, id, a, b) || task_le(sc, id, b, a),
{
    if a.due_date is Some && b.due_date is Some {
        lemma_lex_le_total(a.due_date->0, b.due_date->0);
    }
}

/// The listing order is transitive.
pub proof fn lemma_task_le_trans(sc: bool, id: bool, a: TaskView, b: TaskView, c: TaskView)
    requires
        task_le(sc, id, a, b),
        task_le(sc, id, b, c),
    ensures
        task_le(sc, id, a, c),
{
    if a.due_date is Some && b.due_date is Some && c.due_date is Some {
        if lex_le_chars(a.due_date->0, b.due_date->0) && lex_le_chars(
            b.due_date->0,
            c.due_date->0,
        ) {
            lemma_lex_le_trans(a.due_date->0, b.due_date->0, c.due_date->0);
        }
    }
}

fn lex_le_from(a: &Vec<char>, b: &Vec<char>, i: usize) -> (r: bool)
    requires
        i <= a@.len(),
        i <= b@.len(),
    ensures
        r == lex_le_chars(a@.skip(i as int), b@.skip(i as int)),
    decreases a@.len() - i,
{
    proof {
        assert(a@.skip(i as int).len() == a@.len() - i);
        assert(b@.skip(i as int).len() == b@.len() - i);
    }
    if i == a.len() {
        true
    } else if i == b.len() {
        false
    } else {
        proof {
            assert(a@.skip(i as int).first() == a@[i as int]);
            assert(b@.skip(i as int).first() == b@[i as int]);
        }
        let ca = a[i];
        let cb = b[i];
        if ca < cb {
            true
        } else if cb < ca {
            false
        } else {
            proof {
                assert(a@.skip(i as int).drop_first() =~= a@.skip(i + 1));
                assert(b@.skip(i as int).drop_first() =~= b@.skip(i + 1));
            }
            lex_le_from(a, b, i + 1)
        }
    }
}

/// Lexicographic text comparison of two strings.
fn lex_le(a: &str, b: &str) -> (r: bool)
    ensures
        r == lex_le_chars(a@, b@),
{
    let ca = chars_of(a);
    let cb = chars_of(b);
    proof {
        assert(ca@.skip(0) =~= a@);
        assert(cb@.skip(0) =~= b@);
    }
    lex_le_from(&ca, &cb, 0)
}

/// Whether `a` comes no later than `b` in the listing order for the given
/// flags.
fn task_le_exec(sort_by_cat: bool, include_done: bool, a: &Task, b: &Task) -> (r: bool)
    ensures
        r == task_le(sort_by_cat, include_done, a@, b@),
{
    if include_done && a.done != b.done {
        return !a.done;
    }
    if sort_by_cat {
        let differ = match (&a.category_id, &b.category_id) {
            (Option::None, Option::None) => false,
            (Option::Some(x), Option::Some(y)) => *x != *y,
            _ => true,
        };
        if differ {
            return match (&a.category_id, &b.category_id) {
                (Option::None, _) => true,
                (Option::Some(_), Option::None) => false,
                (Option::Some(x), Option::Some(y)) => *x <= *y,
            };
        }
    }
    match (&a.due_date, &b.due_date) {
        (Option::None, Option::None) => true,
        (Option::None, Option::Some(_)) => false,
        (Option::Some(_), Option::None) => true,
        (Option::Some(x), Option::Some(y)) => lex_le(x.as_str(), y.as_str()),
    }
}

/// Sorts tasks into the listing order for the given flags. The result is a
/// permutation of the input.
pub fn sort_tasks(ts: Vec<Task>, sort_by_cat: bool, include_done: bool) -> (r: Vec<Task>)
    ensures
        sorted_by_key(sort_by_cat, include_done, views_of(r@)),
        views_of(r@).to_multiset() == views_of(ts@).to_multiset(),
{
    broadcast use group_to_multiset_ensures;
    broadcast use vstd::multiset::group_multiset_axioms;

    let mut ts = ts;
    let mut r: Vec<Task> = Vec::new();
    proof {
        assert(views_of(r@) =~= Seq::<TaskView>::empty());
        assert(views_of(ts@).to_multiset() =~= views_of(r@).to_multiset().add(
            views_of(ts@).to_multiset(),
        ));
    }
    let ghost all = views_of(ts@).to_multiset();
    while ts.len() > 0
        invariant
            sorted_by_key(sort_by_cat, include_done, views_of(r@)),
            all == views_of(r@).to_multiset().add(views_of(ts@).to_multiset()),
        decreases ts@.len(),
    {
        let ghost pre_ts = views_of(ts@);
        let x = ts.pop().unwrap();
        proof {
            broadcast use group_to_multiset_ensures;
            broadcast use vstd::multiset::group_multiset_axioms;

            assert(pre_ts.drop_last().push(pre_ts.last()) =~= pre_ts);
            assert(views_of(ts@) =~= pre_ts.drop_last());
            assert(pre_ts.drop_last().push(pre_ts.last()).to_multiset() =~= pre_ts.drop_last()
                .to_multiset().insert(pre_ts.last()));
            assert(x@ == pre_ts.last());
            assert(pre_ts.to_multiset() =~= views_of(ts@).to_multiset().insert(x@));
        }
        let mut k: usize = 0;
        while k < r.len() && task_le_exec(sort_by_cat, include_done, &r[k], &x)
            invariant
                k <= r@.len(),
                forall|t: int|
                    0 <= t < k ==> task_le(sort_by_cat, include_done, views_of(r@)[t], x@),
            decreases r@.len() - k,
        {
            k += 1;
        }
        let ghost pre_r = views_of(r@);
        proof {
            if k < r@.len() {
                lemma_task_le_total(sort_by_cat, include_done, pre_r[k as int], x@);
            }
            assert(forall|t: int|
                k <= t < pre_r.len() ==> task_le(
                    sort_by_cat,
                    include_done,
                    x@,
                    #[trigger] pre_r[t],
                )) by {
                if k < pre_r.len() {
                    assert forall|t: int|
                        k <= t < pre_r.len() implies task_le(
                        sort_by_cat,
                        include_done,
                        x@,
                        #[trigger] pre_r[t],
                    ) by {
                        if t > k {
                            lemma_task_le_trans(
                                sort_by_cat,
                                include_done,
                                x@,
                                pre_r[k as int],
                                pre_r[t],
                            );
                        }
                    }
                }
            }
        }
        r.insert(k, x);
        proof {
            broadcast use group_to_multiset_ensures;
            broadcast use vstd::multiset::group_multiset_axioms;

            let post_r = views_of(r@);
            assert(post_r =~= pre_r.insert(k as int, x@));
            assert(post_r.to_multiset() =~= pre_r.to_multiset().insert(x@)) by {
                assert(pre_r.insert(k as int, x@).to_multiset() == pre_r.to_multiset().insert(x@));
            }
            assert forall|i: int, j: int| 0 <= i < j < post_r.len() implies task_le(
                sort_by_cat,
                include_done,
                post_r[i],
                post_r[j],
            ) by {
                if j < k {
                } else if i < k && j == k {
                    assert(post_r[i] == pre_r[i] && post_r[j] == x@);
                } else if i < k && j > k {
                    assert(post_r[i] == pre_r[i] && post_r[j] == pre_r[j - 1]);
                } else if i == k {
                    assert(post_r[i] == x@ && post_r[j] == pre_r[j - 1]);
                } else {
                    assert(post_r[i] == pre_r[i - 1] && post_r[j] == pre_r[j - 1]);
                }
            }
        }
    }
    proof {
        assert(views_of(ts@) =~= Seq::<TaskView>::empty());
        assert(views_of(r@).to_multiset().add(Multiset::<TaskView>::empty()) =~= views_of(
            r@,
        ).to_multiset());
        assert(Seq::<TaskView>::empty().to_multiset() =~= Multiset::<TaskView>::empty());
    }
    r
}

/// Within a listing, a task with no due date never comes before a task
/// with one, among tasks that agree on the keys that are compared first
/// (trivially all tasks when neither flag asks for them).
pub proof fn lemma_no_due_sorts_last(
    sort_by_cat: bool,
    include_done: bool,
    s: Seq<TaskView>,
    i: int,
    j: int,
)
    requires
        sorted_by_key(sort_by_cat, include_done, s),
        0 <= i < j < s.len(),
        include_done ==> s[i].done == s[j].done,
        sort_by_cat ==> s[i].category_id == s[j].category_id,
        s[i].due_date is None,
    ensures
        s[j].due_date is None,
{
    assert(task_le(sort_by_cat, include_done, s[i], s[j]));
}

} // verus!
