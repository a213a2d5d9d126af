//! The task-list engine: in-memory state, the operations the commands ask
//! for, and the laws they obey.

use vstd::prelude::*;

use crate::storage::{dec_tasks, enc_tasks, lemma_dec_enc_tasks, lemma_dec_ids, load_tasks,
    save_tasks};
use crate::task::{Task, TaskView};
use crate::text::word_eq;

verus! {

/// `ts` holds a task with this id.
pub open spec fn contains_id(ts: Seq<TaskView>, id: u32) -> bool {
    exists|i: int| 0 <= i < ts.len() && ts[i].id == id
}

/// No two tasks of `ts` share an id.
pub open spec fn unique_ids(ts: Seq<TaskView>) -> bool {
    forall|i: int, j: int|
        #![trigger ts[i].id, ts[j].id]
        0 <= i < j < ts.len() ==> ts[i].id != ts[j].id
}

/// `ts` with the task of this id, if any, marked completed.
pub open spec fn mark_done(ts: Seq<TaskView>, id: u32) -> Seq<TaskView> {
    ts.map_values(
        |t: TaskView|
            if t.id == id {
                TaskView { completed: true, ..t }
            } else {
                t
            },
    )
}

/// Whether a task passes the listing filter: `None` keeps all, `Some(b)`
/// keeps the tasks whose completion flag is `b`.
pub open spec fn keep_task(t: TaskView, f: Option<bool>) -> bool {
    match f {
        None => true,
        Some(b) => t.completed == b,
    }
}

/// The filter named by a listing argument: `pending` keeps the open tasks,
/// `completed` the finished ones; no word, or any other word, keeps all.
pub open spec fn filter_of(o: Option<Seq<char>>) -> Option<bool> {
    match o {
        None => None,
        Some(w) => if w == "pending"@ {
            Some(false)
        } else if w == "completed"@ {
            Some(true)
        } else {
            None
        },
    }
}

/// The greatest id in `ts`, or `0` of an empty list.
pub open spec fn max_id(ts: Seq<TaskView>) -> int
    decreases ts.len(),
{
    if ts.len() == 0 {
        0
    } else {
        let m = max_id(ts.drop_last());
        if ts.last().id > m {
            ts.last().id as int
        } else {
            m
        }
    }
}

/// The ordered task list and its id counter.
#[derive(Debug)]
pub struct ToDoList {
    pub tasks: Vec<Task>,
    pub next_id: u32,
}

impl ToDoList {
    /// Well-formedness: ids are pairwise distinct and all below `next_id`,
    /// so the id handed out next is never one already in the list.
    pub open spec fn wf(&self) -> bool {
        &&& forall|i: int|
            0 <= i < self.tasks.deep_view().len() ==> #[trigger] self.tasks.deep_view()[i].id
                < self.next_id
        &&& unique_ids(self.tasks.deep_view())
    }

    /// An empty list; ids start at 1.
    pub fn new() -> (l: ToDoList)
        ensures
            l.tasks.deep_view() == Seq::<TaskView>::empty(),
            l.next_id == 1,
            l.wf(),
    {
        let l = ToDoList { tasks: Vec::new(), next_id: 1 };
        proof {
            assert(l.tasks.deep_view() =~= Seq::<TaskView>::empty());
        }
        l
    }

    /// Appends a new pending task under the next free id and returns that id.
    pub fn add_task(&mut self, description: String, due_date: Option<String>) -> (id: u32)
        requires
            old(self).wf(),
            old(self).next_id < u32::MAX,
        ensures
            id == old(self).next_id,
            final(self).next_id == old(self).next_id + 1,
            final(self).tasks.deep_view() == old(self).tasks.deep_view().push(
                TaskView {
                    id,
                    description: description@,
                    completed: false,
                    due_date: due_date.deep_view(),
                },
            ),
            final(self).wf(),
    {
        let ghost orig = self.tasks.deep_view();
        let id = self.next_id;
        let ghost tv = TaskView {
            id,
            description: description@,
            completed: false,
            due_date: due_date.deep_view(),
        };
        let t = Task { id, description, completed: false, due_date };
        self.tasks.push(t);
        self.next_id = id + 1;
        proof {
            assert(self.tasks.deep_view() =~= orig.push(tv));
            let dv = self.tasks.deep_view();
            assert forall|i: int, j: int|
                #![trigger dv[i].id, dv[j].id]
                0 <= i < j < dv.len() implies dv[i].id != dv[j].id by {
                if j == dv.len() - 1 {
                    assert(dv[i] == orig[i]);
                    assert(orig[i].id < id);
                } else {
                    assert(dv[i] == orig[i]);
                    assert(dv[j] == orig[j]);
                }
            }
        }
        id
    }

    /// Marks the task with this id, if any, completed; reports whether it
    /// was found. Never fails: a missing id leaves the list unchanged.
    pub fn complete_task(&mut self, id: u32) -> (found: bool)
        requires
            old(self).wf(),
        ensures
            final(self).tasks.deep_view() == mark_done(old(self).tasks.deep_view(), id),
            final(self).next_id == old(self).next_id,
            found == contains_id(old(self).tasks.deep_view(), id),
            final(self).wf(),
    {
        let ghost orig = self.tasks.deep_view();
        let n = self.tasks.len();
        let mut i: usize = 0;
        while i < n
            invariant
                n == self.tasks@.len(),
                i <= n,
                self.tasks.deep_view() == orig,
                self.next_id == old(self).next_id,
                old(self).wf(),
                orig == old(self).tasks.deep_view(),
                forall|j: int| 0 <= j < i ==> #[trigger] orig[j].id != id,
            decreases n - i,
        {
            if self.tasks[i].id == id {
                let mut nt = self.tasks[i].duplicate();
                nt.completed = true;
                proof {
                    assert(nt@ == TaskView { completed: true, ..orig[i as int] });
                }
                self.tasks.set(i, nt);
                proof {
                    let dv = self.tasks.deep_view();
                    let md = mark_done(orig, id);
                    assert forall|j: int| 0 <= j < dv.len() implies dv[j] == md[j] by {
                        if j != i {
                            assert(orig[j].id != orig[i as int].id);
                        }
                    }
                    assert(dv =~= md);
                    assert(contains_id(orig, id));
                    assert forall|j: int|
                        0 <= j < dv.len() implies #[trigger] dv[j].id < self.next_id by {
                        assert(dv[j].id == orig[j].id);
                    }
                    assert forall|a: int, b: int|
                        #![trigger dv[a].id, dv[b].id]
                        0 <= a < b < dv.len() implies dv[a].id != dv[b].id by {
                        assert(dv[a].id == orig[a].id);
                        assert(dv[b].id == orig[b].id);
                    }
                }
                return true;
            }
            i += 1;
        }
        proof {
            assert(!contains_id(orig, id));
            assert(self.tasks.deep_view() =~= mark_done(orig, id));
        }
        false
    }

    /// Deletes the task with this id, if any, keeping the order of the rest.
    /// A missing id leaves the list unchanged.
    pub fn remove_task(&mut self, id: u32)
        requires
            old(self).wf(),
        ensures
            final(self).tasks.deep_view() == old(self).tasks.deep_view().filter(
                |t: TaskView| t.id != id,
            ),
            final(self).next_id == old(self).next_id,
            final(self).wf(),
    {
        let ghost orig = self.tasks.deep_view();
        let ghost pred = |t: TaskView| t.id != id;
        let n = self.tasks.len();
        let mut out: Vec<Task> = Vec::new();
        let mut i: usize = 0;
        proof {
            reveal(Seq::filter);
            assert(out.deep_view() =~= Seq::<TaskView>::empty());
            assert(orig.subrange(0, 0) =~= Seq::<TaskView>::empty());
        }
        while i < n
            invariant
                n == self.tasks@.len(),
                i <= n,
                self.tasks.deep_view() == orig,
                self.next_id == old(self).next_id,
                pred == (|t: TaskView| t.id != id),
                out.deep_view() == orig.subrange(0, i as int).filter(pred),
            decreases n - i,
        {
            let ghost pre = orig.subrange(0, i as int);
            let ghost cur = orig.subrange(0, i as int + 1);
            proof {
                reveal(Seq::filter);
                assert(cur.drop_last() =~= pre);
                assert(cur.last() == orig[i as int]);
            }
            if self.tasks[i].id != id {
                let ghost old_out = out.deep_view();
                let t = self.tasks[i].duplicate();
                out.push(t);
                proof {
                    assert(out.deep_view() =~= old_out.push(orig[i as int]));
                    assert(cur.filter(pred) =~= pre.filter(pred).push(orig[i as int]));
                }
            } else {
                proof {
                    assert(cur.filter(pred) =~= pre.filter(pred));
                }
            }
            i += 1;
        }
        proof {
            assert(orig.subrange(0, n as int) =~= orig);
        }
        self.tasks = out;
        proof {
            lemma_filter_keeps_wf(orig, pred, old(self).next_id);
        }
    }

    /// The tasks passing the filter, in insertion order, as copies.
    /// The words `pending` and `completed` filter; none, or any other word,
    /// lists all.
    pub fn list_tasks(&self, filter: Option<String>) -> (r: Vec<Task>)
        ensures
            r.deep_view() == self.tasks.deep_view().filter(
                |t: TaskView| keep_task(t, filter_of(filter.deep_view())),
            ),
    {
        let f: Option<bool> = match &filter {
            None => None,
            Some(w) => {
                if word_eq(w, "pending") {
                    Some(false)
                } else if word_eq(w, "completed") {
                    Some(true)
                } else {
                    None
                }
            },
        };
        proof {
            assert(f == filter_of(filter.deep_view()));
        }
        let ghost orig = self.tasks.deep_view();
        let ghost pred = |t: TaskView| keep_task(t, filter_of(filter.deep_view()));
        let n = self.tasks.len();
        let mut out: Vec<Task> = Vec::new();
        let mut i: usize = 0;
        proof {
            reveal(Seq::filter);
            assert(out.deep_view() =~= Seq::<TaskView>::empty());
            assert(orig.subrange(0, 0) =~= Seq::<TaskView>::empty());
        }
        while i < n
            invariant
                n == self.tasks@.len(),
                orig == self.tasks.deep_view(),
                i <= n,
                f == filter_of(filter.deep_view()),
                pred == (|t: TaskView| keep_task(t, filter_of(filter.deep_view()))),
                out.deep_view() == orig.subrange(0, i as int).filter(pred),
            decreases n - i,
        {
            let ghost pre = orig.subrange(0, i as int);
            let ghost cur = orig.subrange(0, i as int + 1);
            proof {
                reveal(Seq::filter);
                assert(cur.drop_last() =~= pre);
                assert(cur.last() == orig[i as int]);
            }
            let keep = match f {
                None => true,
                Some(b) => self.tasks[i].completed == b,
            };
            if keep {
                let ghost old_out = out.deep_view();
                let t = self.tasks[i].duplicate();
                out.push(t);
                proof {
                    assert(out.deep_view() =~= old_out.push(orig[i as int]));
                    assert(cur.filter(pred) =~= pre.filter(pred).push(orig[i as int]));
                }
            } else {
                proof {
                    assert(!pred(orig[i as int]));
                    assert(cur.filter(pred) =~= pre.filter(pred));
                }
            }
            i += 1;
        }
        proof {
            assert(orig.subrange(0, n as int) =~= orig);
        }
        out
    }

    /// Serializes the list to its store text. Encoding cannot fail.
    pub fn save(&self) -> (r: Result<String, String>)
        ensures
            r matches Ok(s) && s@ == enc_tasks(self.tasks.deep_view()),
    {
        Ok(save_tasks(&self.tasks))
    }

    /// Rebuilds a list from the store text, or from `None` when the store
    /// does not exist yet. `next_id` becomes one past the greatest stored
    /// id, or `1` of an empty store. Malformed text and duplicate ids are
    /// errors.
    pub fn load(content: Option<&str>) -> (r: Result<ToDoList, String>)
        ensures
            match content {
                None => r matches Ok(l) && l.tasks.deep_view() == Seq::<TaskView>::empty()
                    && l.next_id == 1 && l.wf(),
                Some(s) => match dec_tasks(s@) {
                    None => r matches Err(e) && e@ == "malformed task store"@,
                    Some(ts) => if unique_ids(ts) {
                        r matches Ok(l) && l.tasks.deep_view() == ts && l.next_id == max_id(ts)
                            + 1 && l.wf()
                    } else {
                        r matches Err(e) && e@ == "duplicate task id"@
                    },
                },
            },
    {
        let loaded = match content {
            None => {
                return Ok(ToDoList::new());
            },
            Some(s) => {
                proof {
                    lemma_dec_ids(s@);
                }
                match load_tasks(Some(s)) {
                    Ok(v) => v,
                    Err(e) => {
                        return Err(e);
                    },
                }
            },
        };
        let ghost ts = loaded.deep_view();
        let n = loaded.len();
        let mut i: usize = 0;
        while i < n
            invariant
                n == loaded@.len(),
                i <= n,
                ts == loaded.deep_view(),
                content matches Some(cs) && dec_tasks(cs@) == Some(ts),
                forall|a: int, b: int|
                    #![trigger ts[a].id, ts[b].id]
                    0 <= a < b < ts.len() && a < i ==> ts[a].id != ts[b].id,
            decreases n - i,
        {
            let mut j: usize = i + 1;
            while j < n
                invariant
                    n == loaded@.len(),
                    i < j <= n || (i + 1 == j && j > n),
                    i < n,
                    ts == loaded.deep_view(),
                    content matches Some(cs) && dec_tasks(cs@) == Some(ts),
                    forall|b: int| i < b < j ==> ts[i as int].id != #[trigger] ts[b].id,
                decreases n - j,
            {
                if loaded[i].id == loaded[j].id {
                    proof {
                        assert(ts[i as int].id == ts[j as int].id);
                        assert(!unique_ids(ts));
                    }
                    return Err("duplicate task id".to_owned());
                }
                j += 1;
            }
            i += 1;
        }
        proof {
            assert(unique_ids(ts));
        }
        let mut m: u32 = 0;
        let mut k: usize = 0;
        proof {
            assert(ts.subrange(0, 0) =~= Seq::<TaskView>::empty());
        }
        while k < n
            invariant
                n == loaded@.len(),
                k <= n,
                ts == loaded.deep_view(),
                forall|a: int| 0 <= a < ts.len() ==> #[trigger] ts[a].id < u32::MAX,
                m == max_id(ts.subrange(0, k as int)),
                m < u32::MAX,
            decreases n - k,
        {
            let ghost cur = ts.subrange(0, k as int + 1);
            proof {
                assert(cur.drop_last() =~= ts.subrange(0, k as int));
                assert(cur.last() == ts[k as int]);
            }
            proof {
                assert(ts[k as int].id < u32::MAX);
            }
            if loaded[k].id > m {
                m = loaded[k].id;
            }
            k += 1;
        }
        proof {
            assert(ts.subrange(0, n as int) =~= ts);
        }
        let l = ToDoList { tasks: loaded, next_id: m + 1 };
        proof {
            lemma_max_id_bound(ts);
        }
        Ok(l)
    }
}

/// Every id of `ts` is at most `max_id(ts)`.
proof fn lemma_max_id_bound(ts: Seq<TaskView>)
    ensures
        forall|a: int| 0 <= a < ts.len() ==> #[trigger] ts[a].id <= max_id(ts),
        max_id(ts) >= 0,
    decreases ts.len(),
{
    if ts.len() > 0 {
        lemma_max_id_bound(ts.drop_last());
        assert forall|a: int| 0 <= a < ts.len() implies #[trigger] ts[a].id <= max_id(ts) by {
            if a < ts.len() - 1 {
                assert(ts.drop_last()[a] == ts[a]);
            }
        }
    }
}

/// Filtering keeps ids distinct and below the same bound.
proof fn lemma_filter_keeps_wf(ts: Seq<TaskView>, pred: spec_fn(TaskView) -> bool, bound: u32)
    requires
        forall|i: int| 0 <= i < ts.len() ==> #[trigger] ts[i].id < bound,
        unique_ids(ts),
    ensures
        forall|i: int| 0 <= i < ts.filter(pred).len() ==> #[trigger] ts.filter(pred)[i].id < bound,
        unique_ids(ts.filter(pred)),
    decreases ts.len(),
{
    reveal(Seq::filter);
    if ts.len() > 0 {
        let dl = ts.drop_last();
        assert forall|i: int| 0 <= i < dl.len() implies #[trigger] dl[i].id < bound by {
            assert(dl[i] == ts[i]);
        }
        assert forall|a: int, b: int|
            #![trigger dl[a].id, dl[b].id]
            0 <= a < b < dl.len() implies dl[a].id != dl[b].id by {
            assert(dl[a] == ts[a]);
            assert(dl[b] == ts[b]);
        }
        lemma_filter_keeps_wf(dl, pred, bound);
        let fdl = dl.filter(pred);
        if pred(ts.last()) {
            assert(ts.filter(pred) == fdl.push(ts.last()));
            lemma_filter_members(dl, pred);
            let f = ts.filter(pred);
            assert forall|a: int, b: int|
                #![trigger f[a].id, f[b].id]
                0 <= a < b < f.len() implies f[a].id != f[b].id by {
                if b == f.len() - 1 {
                    assert(f[a] == fdl[a]);
                    let w = choose|w: int| 0 <= w < dl.len() && dl[w] == fdl[a];
                    assert(ts[w] == dl[w]);
                    assert(ts[w].id != ts[ts.len() - 1].id);
                } else {
                    assert(f[a] == fdl[a]);
                    assert(f[b] == fdl[b]);
                }
            }
        } else {
            assert(ts.filter(pred) == fdl);
        }
    }
}

/// Every element of a filtered sequence stands somewhere in the sequence
/// it came from.
proof fn lemma_filter_members(ts: Seq<TaskView>, pred: spec_fn(TaskView) -> bool)
    ensures
        forall|i: int|
            0 <= i < ts.filter(pred).len() ==> exists|w: int|
                0 <= w < ts.len() && ts[w] == #[trigger] ts.filter(pred)[i],
    decreases ts.len(),
{
    reveal(Seq::filter);
    if ts.len() > 0 {
        let dl = ts.drop_last();
        lemma_filter_members(dl, pred);
        let f = ts.filter(pred);
        assert forall|i: int| 0 <= i < f.len() implies exists|w: int|
            0 <= w < ts.len() && ts[w] == #[trigger] f[i] by {
            if pred(ts.last()) && i == f.len() - 1 {
                assert(ts[ts.len() - 1] == f[i]);
            } else {
                assert(f[i] == dl.filter(pred)[i]);
                let w = choose|w: int| 0 <= w < dl.len() && dl[w] == dl.filter(pred)[i];
                assert(ts[w] == f[i]);
            }
        }
    }
}

/// Completing a task twice is the same as completing it once.
pub proof fn lemma_complete_idempotent(ts: Seq<TaskView>, id: u32)
    ensures
        mark_done(mark_done(ts, id), id) == mark_done(ts, id),
{
    assert(mark_done(mark_done(ts, id), id) =~= mark_done(ts, id));
}

/// Removing an id that no task holds leaves the list exactly as it was.
pub proof fn lemma_remove_missing(ts: Seq<TaskView>, id: u32)
    requires
        forall|i: int| 0 <= i < ts.len() ==> #[trigger] ts[i].id != id,
    ensures
        ts.filter(|t: TaskView| t.id != id) == ts,
    decreases ts.len(),
{
    reveal(Seq::filter);
    if ts.len() > 0 {
        let dl = ts.drop_last();
        assert forall|i: int| 0 <= i < dl.len() implies #[trigger] dl[i].id != id by {
            assert(dl[i] == ts[i]);
        }
        lemma_remove_missing(dl, id);
        assert(ts[ts.len() - 1].id != id);
        assert(ts.filter(|t: TaskView| t.id != id) == dl.push(ts.last()));
        assert(dl.push(ts.last()) =~= ts);
    }
}

/// The id a well-formed list hands out next is not the id of any task it
/// already holds: returned ids never repeat, even after removals.
pub proof fn lemma_next_id_fresh(l: ToDoList)
    requires
        l.wf(),
    ensures
        !contains_id(l.tasks.deep_view(), l.next_id),
{
}

/// A saved list is loaded back exactly: the store text of a well-formed
/// list decodes to the same tasks, in the same order.
pub proof fn lemma_save_load_round_trip(l: ToDoList)
    requires
        l.wf(),
    ensures
        dec_tasks(enc_tasks(l.tasks.deep_view())) == Some(l.tasks.deep_view()),
{
    lemma_dec_enc_tasks(l.tasks.deep_view());
}

} // verus!
