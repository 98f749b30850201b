//! The task list: an ordered, zero-indexed sequence of tasks, each a line of
//! trimmed text with a completion flag. Every operation that takes an index
//! treats an index at or past the end as a reported, harmless error.

use vstd::prelude::*;
use crate::text::{trim, trim_spec, is_trimmed, lemma_trim_spec_trimmed};
use crate::storage::{
    serialize_spec, parse_spec, parse_line_spec, line_of, opt_task, lemma_serialize_push,
    lemma_first_nl_at, parse_line,
};

verus! {

/// One to-do entry: text content plus a completed flag.
pub struct Task {
    pub content: String,
    pub completed: bool,
}

/// The mathematical image of a task: its text as a sequence of characters
/// and its completion flag.
pub ghost struct TaskView {
    pub content: Seq<char>,
    pub completed: bool,
}

impl View for Task {
    type V = TaskView;

    open spec fn view(&self) -> TaskView {
        TaskView { content: self.content@, completed: self.completed }
    }
}

/// The image of a vector of tasks: the sequence of their views.
pub open spec fn views_of(tasks: Seq<Task>) -> Seq<TaskView> {
    tasks.map_values(|t: Task| t@)
}

/// The error an operation reports when the given index names no task.
#[derive(Debug, Clone, Copy, PartialEq, Eq, Structural)]
pub enum TodoError {
    OutOfRange,
}

impl TodoError {
    /// A short description of the error for the user.
    pub fn message(&self) -> (r: &'static str)
        ensures
            r@ == ("Index out of task range")@,
    {
        "Index out of task range"
    }
}

/// `l` without its completed tasks, the rest in their order.
pub open spec fn clean_spec(l: Seq<TaskView>) -> Seq<TaskView> {
    l.filter(|t: TaskView| !t.completed)
}

/// `l` with the completion flag of the task at `i` replaced by `value`.
pub open spec fn set_completed_spec(l: Seq<TaskView>, i: int, value: bool) -> Seq<TaskView> {
    l.update(i, TaskView { content: l[i].content, completed: value })
}

/// `l` with the content of the task at `i` replaced by `content`.
pub open spec fn update_content_spec(l: Seq<TaskView>, i: int, content: Seq<char>) -> Seq<TaskView> {
    l.update(i, TaskView { content: content, completed: l[i].completed })
}

/// The ordered collection of tasks.
pub struct TodoList {
    tasks: Vec<Task>,
}

impl View for TodoList {
    type V = Seq<TaskView>;

    closed spec fn view(&self) -> Seq<TaskView> {
        views_of(self.tasks@)
    }
}

impl TodoList {
    /// Every stored task's text is trimmed.
    pub open spec fn wf(&self) -> bool {
        forall|i: int| 0 <= i < self@.len() ==> is_trimmed(#[trigger] self@[i].content)
    }

    /// An empty task list.
    pub fn new() -> (r: TodoList)
        ensures
            r@ == Seq::<TaskView>::empty(),
            r.wf(),
    {
        let r = TodoList { tasks: Vec::new() };
        proof {
            assert(r@ =~= Seq::<TaskView>::empty());
        }
        r
    }

    /// The tasks, in order, for display.
    pub fn get_task(&self) -> (r: &Vec<Task>)
        ensures
            views_of(r@) == self@,
    {
        &self.tasks
    }

    /// Append a new task at the end: its text is `task` trimmed, and it is
    /// not completed.
    pub fn add_task(&mut self, task: String)
        requires
            old(self).wf(),
        ensures
            final(self).wf(),
            final(self)@ == old(self)@.push(TaskView { content: trim_spec(task@), completed: false }),
    {
        let content = trim(task.as_str());
        proof {
            lemma_trim_spec_trimmed(task@);
        }
        self.tasks.push(Task { content, completed: false });
        proof {
            assert(self@ =~= old(self)@.push(TaskView { content: trim_spec(task@), completed: false }));
        }
    }

    /// Remove the task at `index`, shifting the tasks after it down one
    /// position; with an index out of range, report the error and change
    /// nothing.
    pub fn remove_task(&mut self, index: u8) -> (r: Result<(), TodoError>)
        requires
            old(self).wf(),
        ensures
            final(self).wf(),
            (index as int) < old(self)@.len() ==> r == Ok::<(), TodoError>(())
                && final(self)@ == old(self)@.remove(index as int),
            (index as int) >= old(self)@.len() ==> r == Err::<(), TodoError>(TodoError::OutOfRange)
                && final(self)@ == old(self)@,
    {
        let i = index as usize;
        if i < self.tasks.len() {
            self.tasks.remove(i);
            proof {
                assert(self@ =~= old(self)@.remove(i as int));
            }
            Ok(())
        } else {
            Err(TodoError::OutOfRange)
        }
    }

    /// Replace the content of the task at `index` by `new_task` trimmed,
    /// leaving its completion flag as it was; with an index out of range,
    /// report the error and change nothing.
    pub fn update_task(&mut self, index: u8, new_task: String) -> (r: Result<(), TodoError>)
        requires
            old(self).wf(),
        ensures
            final(self).wf(),
            (index as int) < old(self)@.len() ==> r == Ok::<(), TodoError>(())
                && final(self)@ == update_content_spec(old(self)@, index as int, trim_spec(new_task@)),
            (index as int) >= old(self)@.len() ==> r == Err::<(), TodoError>(TodoError::OutOfRange)
                && final(self)@ == old(self)@,
    {
        let i = index as usize;
        if i < self.tasks.len() {
            let content = trim(new_task.as_str());
            proof {
                lemma_trim_spec_trimmed(new_task@);
            }
            let mut t = self.tasks.remove(i);
            t.content = content;
            self.tasks.insert(i, t);
            proof {
                assert(self@ =~= update_content_spec(old(self)@, i as int, trim_spec(new_task@)));
            }
            Ok(())
        } else {
            Err(TodoError::OutOfRange)
        }
    }

    /// Set the completion flag of the task at `index` to `value`, leaving
    /// its content as it was; with an index out of range, report the error
    /// and change nothing.
    pub fn set_completed(&mut self, index: u8, value: bool) -> (r: Result<(), TodoError>)
        requires
            old(self).wf(),
        ensures
            final(self).wf(),
            (index as int) < old(self)@.len() ==> r == Ok::<(), TodoError>(())
                && final(self)@ == set_completed_spec(old(self)@, index as int, value),
            (index as int) >= old(self)@.len() ==> r == Err::<(), TodoError>(TodoError::OutOfRange)
                && final(self)@ == old(self)@,
    {
        let i = index as usize;
        if i < self.tasks.len() {
            let mut t = self.tasks.remove(i);
            t.completed = value;
            self.tasks.insert(i, t);
            proof {
                assert(self@ =~= set_completed_spec(old(self)@, i as int, value));
            }
            Ok(())
        } else {
            Err(TodoError::OutOfRange)
        }
    }

    /// Mark the task at `index` as completed.
    pub fn complete_task(&mut self, index: u8) -> (r: Result<(), TodoError>)
        requires
            old(self).wf(),
        ensures
            final(self).wf(),
            (index as int) < old(self)@.len() ==> r == Ok::<(), TodoError>(())
                && final(self)@ == set_completed_spec(old(self)@, index as int, true),
            (index as int) >= old(self)@.len() ==> r == Err::<(), TodoError>(TodoError::OutOfRange)
                && final(self)@ == old(self)@,
    {
        self.set_completed(index, true)
    }

    /// Mark the task at `index` as not completed.
    pub fn uncomplete_task(&mut self, index: u8) -> (r: Result<(), TodoError>)
        requires
            old(self).wf(),
        ensures
            final(self).wf(),
            (index as int) < old(self)@.len() ==> r == Ok::<(), TodoError>(())
                && final(self)@ == set_completed_spec(old(self)@, index as int, false),
            (index as int) >= old(self)@.len() ==> r == Err::<(), TodoError>(TodoError::OutOfRange)
                && final(self)@ == old(self)@,
    {
        self.set_completed(index, false)
    }

    /// Discard every completed task, keeping the rest in their order.
    pub fn clean(&mut self)
        requires
            old(self).wf(),
        ensures
            final(self).wf(),
            final(self)@ == clean_spec(old(self)@),
    {
        let ghost orig = self@;
        let ghost pred = |t: TaskView| !t.completed;
        let mut kept: Vec<Task> = Vec::new();
        proof {
            assert(self@ =~= orig.subrange(0, self.tasks@.len() as int));
            assert(orig.filter(pred) =~= orig.subrange(0, self.tasks@.len() as int).filter(pred)
                + views_of(kept@));
        }
        while self.tasks.len() > 0
            invariant
                self.tasks@.len() <= orig.len(),
                self@ == orig.subrange(0, self.tasks@.len() as int),
                orig.filter(pred) == orig.subrange(0, self.tasks@.len() as int).filter(pred)
                    + views_of(kept@),
                pred == (|t: TaskView| !t.completed),
                forall|i: int|
                    0 <= i < views_of(kept@).len() ==> is_trimmed(
                        #[trigger] views_of(kept@)[i].content,
                    ),
                forall|i: int| 0 <= i < orig.len() ==> is_trimmed(#[trigger] orig[i].content),
            decreases self.tasks@.len(),
        {
            let ghost m = self.tasks@.len() as int;
            let t = self.tasks.pop().unwrap();
            proof {
                assert(t@ == orig.subrange(0, m)[m - 1]);
                assert(orig.subrange(0, m).drop_last() =~= orig.subrange(0, m - 1));
                assert(self@ =~= orig.subrange(0, m - 1));
            }
            if !t.completed {
                let ghost kept_before = views_of(kept@);
                kept.insert(0, t);
                proof {
                    reveal_with_fuel(Seq::filter, 2);
                    assert(views_of(kept@) =~= seq![t@] + kept_before);
                    assert(orig.subrange(0, m).filter(pred)
                        =~= orig.subrange(0, m - 1).filter(pred).push(t@));
                    assert(orig.subrange(0, m - 1).filter(pred).push(t@) + kept_before
                        =~= orig.subrange(0, m - 1).filter(pred) + (seq![t@] + kept_before));
                }
            } else {
                proof {
                    reveal_with_fuel(Seq::filter, 2);
                    assert(orig.subrange(0, m).filter(pred)
                        =~= orig.subrange(0, m - 1).filter(pred));
                }
            }
        }
        proof {
            reveal_with_fuel(Seq::filter, 2);
            assert(orig.subrange(0, 0) =~= Seq::<TaskView>::empty());
            assert(Seq::<TaskView>::empty().filter(pred) =~= Seq::<TaskView>::empty());
            assert(Seq::<TaskView>::empty() + views_of(kept@) =~= views_of(kept@));
        }
        self.tasks = kept;
    }

    /// The text image of the list for the storage file: one status-prefixed
    /// line per task, joined by newlines.
    pub fn serialize(&self) -> (r: String)
        ensures
            r@ == serialize_spec(self@),
    {
        let mut out = String::new();
        let n = self.tasks.len();
        let mut i: usize = 0;
        proof {
            assert(self@.subrange(0, 0) =~= Seq::<TaskView>::empty());
        }
        while i < n
            invariant
                n == self.tasks@.len(),
                0 <= i <= n,
                out@ == serialize_spec(self@.subrange(0, i as int)),
            decreases n - i,
        {
            if i > 0 {
                out.append("\n");
            }
            let t = &self.tasks[i];
            if t.completed {
                out.append("T");
            } else {
                out.append("F");
            }
            out.append(t.content.as_str());
            proof {
                reveal_strlit("\n");
                reveal_strlit("T");
                reveal_strlit("F");
                let done = self@.subrange(0, i as int);
                lemma_serialize_push(done, self@[i as int]);
                assert(done.push(self@[i as int]) =~= self@.subrange(0, i + 1));
                assert(line_of(self@[i as int]) =~= seq![
                    crate::storage::status_char(self@[i as int].completed),
                ] + self@[i as int].content);
                if i == 0 {
                    assert(out@ =~= line_of(self@[0]));
                } else {
                    assert(out@ =~= serialize_spec(done) + seq!['\n'] + line_of(self@[i as int]));
                }
            }
            i = i + 1;
        }
        proof {
            assert(self@.subrange(0, n as int) =~= self@);
        }
        out
    }

    /// Read a list back from the text image of a storage file: each line in
    /// order, keeping those that parse as tasks and dropping the rest.
    pub fn parse(contents: &str) -> (r: TodoList)
        ensures
            r@ == parse_spec(contents@),
            r.wf(),
    {
        let n = contents.unicode_len();
        let mut tasks: Vec<Task> = Vec::new();
        let mut start: usize = 0;
        proof {
            assert(views_of(tasks@) =~= Seq::<TaskView>::empty());
            assert(contents@.subrange(0, n as int) =~= contents@);
            assert(views_of(tasks@) + parse_spec(contents@) =~= parse_spec(contents@));
        }
        while start < n
            invariant
                n == contents@.len(),
                0 <= start <= n,
                parse_spec(contents@) == views_of(tasks@) + parse_spec(
                    contents@.subrange(start as int, n as int),
                ),
                forall|i: int|
                    0 <= i < views_of(tasks@).len() ==> is_trimmed(
                        #[trigger] views_of(tasks@)[i].content,
                    ),
            decreases n - start,
        {
            let ghost rem = contents@.subrange(start as int, n as int);
            let mut end = start;
            while end < n && contents.get_char(end) != '\n'
                invariant
                    n == contents@.len(),
                    start <= end <= n,
                    forall|k: int| start <= k < end ==> contents@[k] != '\n',
                decreases n - end,
            {
                end = end + 1;
            }
            let line = contents.substring_char(start, end);
            proof {
                assert forall|k: int| 0 <= k < end - start implies rem[k] != '\n' by {
                    assert(rem[k] == contents@[start + k]);
                };
                assert(end - start == rem.len() || rem[end - start] == '\n');
                lemma_first_nl_at(rem, end - start);
                assert(line@ =~= rem.subrange(0, end - start));
            }
            let parsed = parse_line(line);
            let ghost before = views_of(tasks@);
            match parsed {
                Some(t) => {
                    tasks.push(t);
                    proof {
                        assert(views_of(tasks@) =~= before.push(t@));
                    }
                },
                None => {},
            }
            proof {
                let ghost rest = (if end < n {
                    parse_spec(contents@.subrange(end + 1, n as int))
                } else {
                    Seq::<TaskView>::empty()
                });
                if end < n {
                    assert(rem.subrange(end - start + 1, rem.len() as int) =~= contents@.subrange(
                        end + 1,
                        n as int,
                    ));
                    assert(parse_spec(rem) == opt_task(parse_line_spec(line@)) + rest);
                } else {
                    assert(end - start == rem.len());
                    assert(line@ =~= rem);
                    assert(parse_spec(rem) == opt_task(parse_line_spec(rem)));
                    assert(opt_task(parse_line_spec(line@)) + rest =~= opt_task(
                        parse_line_spec(line@),
                    ));
                    assert(parse_spec(rem) == opt_task(parse_line_spec(line@)) + rest);
                }
                match parse_line_spec(line@) {
                    Some(v) => {
                        assert(views_of(tasks@) =~= before + seq![v]);
                        assert(before + (seq![v] + rest) =~= (before + seq![v]) + rest);
                    },
                    None => {
                        assert(opt_task(parse_line_spec(line@)) =~= Seq::<TaskView>::empty());
                        assert(Seq::<TaskView>::empty() + rest =~= rest);
                    },
                }
                if end < n {
                } else {
                    assert(contents@.subrange(n as int, n as int) =~= Seq::<char>::empty());
                    assert(parse_spec(Seq::<char>::empty()) =~= Seq::<TaskView>::empty());
                    assert(views_of(tasks@) + Seq::<TaskView>::empty() =~= views_of(tasks@));
                }
            }
            if end < n {
                start = end + 1;
            } else {
                start = n;
            }
        }
        proof {
            assert(contents@.subrange(start as int, n as int) =~= Seq::<char>::empty());
            assert(parse_spec(Seq::<char>::empty()) =~= Seq::<TaskView>::empty());
            assert(views_of(tasks@) + Seq::<TaskView>::empty() =~= views_of(tasks@));
        }
        let r = TodoList { tasks };
        proof {
            assert(r@ == views_of(r.tasks@));
        }
        r
    }

    /// Discard every task.
    pub fn purge(&mut self)
        ensures
            final(self).wf(),
            final(self)@ == Seq::<TaskView>::empty(),
    {
        self.tasks = Vec::new();
        proof {
            assert(self@ =~= Seq::<TaskView>::empty());
        }
    }
}

/// A list written out and read back is the same list: for any task list of
/// the store whose task text holds no embedded newline, parsing its
/// serialized image yields the same tasks, with the same text and flags in
/// the same order.
pub proof fn lemma_save_load(l: &TodoList)
    requires
        l.wf(),
        forall|i: int| 0 <= i < l@.len() ==> !(#[trigger] l@[i]).content.contains('\n'),
    ensures
        parse_spec(serialize_spec(l@)) == l@,
{
    crate::storage::lemma_round_trip(l@);
}

/// The list that a run of adds leaves behind: the earlier tasks followed by
/// the added texts, each trimmed and not completed.
pub open spec fn after_adds(before: Seq<TaskView>, added: Seq<Seq<char>>) -> Seq<TaskView> {
    before + added.map_values(
        |c: Seq<char>| TaskView { content: trim_spec(c), completed: false },
    )
}

/// Adding tasks only appends: after any run of adds, the length has grown by
/// exactly the number of adds, every earlier task is unchanged in place, and
/// the added tasks follow in insertion order, each not completed.
pub proof fn lemma_adds_append(before: Seq<TaskView>, added: Seq<Seq<char>>)
    ensures
        after_adds(before, added).len() == before.len() + added.len(),
        forall|i: int| 0 <= i < before.len() ==> #[trigger] after_adds(before, added)[i]
            == before[i],
        forall|j: int|
            0 <= j < added.len() ==> (#[trigger] after_adds(before, added)[before.len() + j])
                == (TaskView { content: trim_spec(added[j]), completed: false }),
{
}

/// One more add extends the run: pushing the next task onto the result of a
/// run of adds is the run extended by that text.
pub proof fn lemma_adds_step(before: Seq<TaskView>, added: Seq<Seq<char>>, c: Seq<char>)
    ensures
        after_adds(before, added).push(TaskView { content: trim_spec(c), completed: false })
            == after_adds(before, added.push(c)),
{
    assert(after_adds(before, added).push(TaskView { content: trim_spec(c), completed: false })
        =~= after_adds(before, added.push(c)));
}

/// Removing the task at `i` shifts every later task down one position and
/// leaves every earlier task in place.
pub proof fn lemma_remove_shifts(l: Seq<TaskView>, i: int)
    requires
        0 <= i < l.len(),
    ensures
        l.remove(i).len() == l.len() - 1,
        forall|k: int| 0 <= k < i ==> #[trigger] l.remove(i)[k] == l[k],
        forall|k: int| i <= k < l.len() - 1 ==> #[trigger] l.remove(i)[k] == l[k + 1],
{
    l.remove_ensures(i);
}

/// Marking a task completed and then not completed brings the list back to
/// where it started, and in between the task is observably completed.
pub proof fn lemma_set_completed_round_trip(l: Seq<TaskView>, i: int)
    requires
        0 <= i < l.len(),
        !l[i].completed,
    ensures
        set_completed_spec(l, i, true)[i].completed,
        set_completed_spec(set_completed_spec(l, i, true), i, false) == l,
{
    assert(set_completed_spec(set_completed_spec(l, i, true), i, false) =~= l);
}

/// After cleaning, no remaining task is completed; and cleaning keeps the
/// relative order of what remains: cleaning a concatenation is the cleaned
/// parts concatenated, and an incomplete task survives as itself.
pub proof fn lemma_clean_result(a: Seq<TaskView>, b: Seq<TaskView>, t: TaskView)
    requires
        !t.completed,
    ensures
        forall|i: int| 0 <= i < clean_spec(a).len() ==> !(#[trigger] clean_spec(a)[i]).completed,
        clean_spec(a + b) == clean_spec(a) + clean_spec(b),
        clean_spec(seq![t]) == seq![t],
{
    broadcast use Seq::filter_distributes_over_add;

    reveal_with_fuel(Seq::filter, 2);
    assert forall|i: int| 0 <= i < clean_spec(a).len() implies !(
    #[trigger] clean_spec(a)[i]).completed by {
        a.lemma_filter_pred(|x: TaskView| !x.completed, i);
    };
    assert(seq![t].drop_last() =~= Seq::<TaskView>::empty());
    assert(clean_spec(seq![t]) =~= seq![t]);
}

} // verus!
