//! The storage file format: one line per task, a status character (`T` for
//! completed, `F` for not) followed immediately by the task's text, lines
//! joined by single newlines with no trailing newline. Reading is lenient: a
//! line that does not start with a status character is dropped.

use vstd::prelude::*;
use crate::text::{trim, trim_spec, is_trimmed, lemma_trim_spec_trimmed, lemma_trimmed_fixed};
use crate::todo_list::{Task, TaskView};

verus! {

/// The status character that begins a task's line.
pub open spec fn status_char(completed: bool) -> char {
    if completed {
        'T'
    } else {
        'F'
    }
}

/// The line that stores a task: its status character followed by its text.
pub open spec fn line_of(t: TaskView) -> Seq<char> {
    seq![status_char(t.completed)] + t.content
}

/// The file image of a whole list: the tasks' lines joined by single
/// newlines, with no trailing newline.
pub open spec fn serialize_spec(tasks: Seq<TaskView>) -> Seq<char>
    decreases tasks.len(),
{
    if tasks.len() == 0 {
        Seq::empty()
    } else if tasks.len() == 1 {
        line_of(tasks[0])
    } else {
        line_of(tasks[0]) + seq!['\n'] + serialize_spec(tasks.drop_first())
    }
}

/// The position of the first newline in `s`, or its length if there is none.
pub open spec fn first_nl(s: Seq<char>) -> int
    decreases s.len(),
{
    if s.len() == 0 {
        0
    } else if s[0] == '\n' {
        0
    } else {
        1 + first_nl(s.drop_first())
    }
}

/// What one stored line means: a `T` or `F` line makes a task whose text is
/// the remainder of the line, trimmed; any other line makes none.
pub open spec fn parse_line_spec(line: Seq<char>) -> Option<TaskView> {
    if line.len() >= 1 && line[0] == 'T' {
        Some(TaskView { content: trim_spec(line.subrange(1, line.len() as int)), completed: true })
    } else if line.len() >= 1 && line[0] == 'F' {
        Some(TaskView { content: trim_spec(line.subrange(1, line.len() as int)), completed: false })
    } else {
        None
    }
}

/// The tasks a line yields: one or none.
pub open spec fn opt_task(t: Option<TaskView>) -> Seq<TaskView> {
    match t {
        Some(v) => seq![v],
        None => Seq::empty(),
    }
}

/// The tasks read from a whole file image: its lines in order, each either
/// kept as a task or dropped.
pub open spec fn parse_spec(s: Seq<char>) -> Seq<TaskView>
    decreases s.len(),
{
    if s.len() == 0 {
        Seq::empty()
    } else {
        let i = first_nl(s);
        if 0 <= i < s.len() {
            opt_task(parse_line_spec(s.subrange(0, i))) + parse_spec(
                s.subrange(i + 1, s.len() as int),
            )
        } else {
            opt_task(parse_line_spec(s))
        }
    }
}

/// The first newline lies where the first `i` characters are not newlines
/// and the one at `i` (if any) is.
pub proof fn lemma_first_nl_at(s: Seq<char>, i: int)
    requires
        0 <= i <= s.len(),
        forall|k: int| 0 <= k < i ==> s[k] != '\n',
        i == s.len() || s[i] == '\n',
    ensures
        first_nl(s) == i,
    decreases i,
{
    if s.len() == 0 {
    } else if i == 0 {
    } else {
        let t = s.drop_first();
        assert(s[0] != '\n');
        assert(forall|k: int| 0 <= k < i - 1 ==> #[trigger] t[k] == s[k + 1]);
        lemma_first_nl_at(t, i - 1);
    }
}

/// A task line read back yields exactly the task it was written from.
pub proof fn lemma_parse_line_of(t: TaskView)
    requires
        is_trimmed(t.content),
    ensures
        parse_line_spec(line_of(t)) == Some(t),
{
    let line = line_of(t);
    assert(line[0] == status_char(t.completed));
    assert(line.subrange(1, line.len() as int) =~= t.content);
    lemma_trimmed_fixed(t.content);
}

/// No character of a task's line is a newline, provided its text holds none.
proof fn lemma_line_no_nl(t: TaskView, k: int)
    requires
        !t.content.contains('\n'),
        0 <= k < line_of(t).len(),
    ensures
        line_of(t)[k] != '\n',
{
    let line = line_of(t);
    if k == 0 {
    } else {
        assert(line[k] == t.content[k - 1]);
        if line[k] == '\n' {
            assert(t.content.contains('\n'));
        }
    }
}

/// Writing a list out and reading the image back yields the same tasks, in
/// the same order with the same text and flags, for any list whose task
/// text is trimmed and holds no newline.
pub proof fn lemma_round_trip(tasks: Seq<TaskView>)
    requires
        forall|i: int| 0 <= i < tasks.len() ==> is_trimmed((#[trigger] tasks[i]).content),
        forall|i: int| 0 <= i < tasks.len() ==> !(#[trigger] tasks[i]).content.contains('\n'),
    ensures
        parse_spec(serialize_spec(tasks)) == tasks,
    decreases tasks.len(),
{
    if tasks.len() == 0 {
    } else if tasks.len() == 1 {
        let s = serialize_spec(tasks);
        assert(s == line_of(tasks[0]));
        assert forall|k: int| 0 <= k < s.len() implies s[k] != '\n' by {
            lemma_line_no_nl(tasks[0], k);
        };
        lemma_first_nl_at(s, s.len() as int);
        lemma_parse_line_of(tasks[0]);
        assert(s.len() >= 1);
        assert(parse_spec(s) == opt_task(parse_line_spec(s)));
        assert(opt_task(Some(tasks[0])) =~= tasks);
    } else {
        let s = serialize_spec(tasks);
        let line = line_of(tasks[0]);
        let rest = serialize_spec(tasks.drop_first());
        assert(s == line + seq!['\n'] + rest);
        assert forall|k: int| 0 <= k < line.len() implies s[k] != '\n' by {
            assert(s[k] == line[k]);
            lemma_line_no_nl(tasks[0], k);
        };
        assert(s[line.len() as int] == '\n');
        lemma_first_nl_at(s, line.len() as int);
        assert(s.subrange(0, line.len() as int) =~= line);
        assert(s.subrange(line.len() as int + 1, s.len() as int) =~= rest);
        lemma_parse_line_of(tasks[0]);
        let dropped = tasks.drop_first();
        assert(forall|i: int|
            0 <= i < dropped.len() ==> #[trigger] dropped[i] == tasks[i + 1]);
        lemma_round_trip(dropped);
        assert(parse_spec(s) == opt_task(Some(tasks[0])) + dropped);
        assert(opt_task(Some(tasks[0])) + dropped =~= tasks);
    }
}

/// Appending one task to a list extends its file image by that task's line,
/// preceded by a newline unless the list was empty.
pub proof fn lemma_serialize_push(s: Seq<TaskView>, t: TaskView)
    ensures
        s.len() == 0 ==> serialize_spec(s.push(t)) == line_of(t),
        s.len() > 0 ==> serialize_spec(s.push(t)) == serialize_spec(s) + seq!['\n'] + line_of(t),
    decreases s.len(),
{
    let sp = s.push(t);
    if s.len() == 0 {
        assert(sp.len() == 1);
        assert(sp[0] == t);
    } else if s.len() == 1 {
        assert(sp.len() == 2);
        assert(sp[0] == s[0]);
        assert(sp.drop_first() =~= seq![t]);
        assert(serialize_spec(seq![t]) == line_of(t));
        assert(serialize_spec(s) == line_of(s[0]));
    } else {
        assert(sp[0] == s[0]);
        assert(sp.drop_first() =~= s.drop_first().push(t));
        lemma_serialize_push(s.drop_first(), t);
        assert(serialize_spec(sp) == line_of(s[0]) + seq!['\n'] + serialize_spec(
            s.drop_first().push(t),
        ));
        assert(line_of(s[0]) + seq!['\n'] + (serialize_spec(s.drop_first()) + seq!['\n']
            + line_of(t)) =~= (line_of(s[0]) + seq!['\n'] + serialize_spec(s.drop_first()))
            + seq!['\n'] + line_of(t));
    }
}

/// Read one stored line: a status character then the task's text, trimmed.
pub fn parse_line(line: &str) -> (r: Option<Task>)
    ensures
        parse_line_spec(line@) is None ==> r is None,
        parse_line_spec(line@) matches Some(v) ==> (r matches Some(t) && t@ == v && is_trimmed(
            v.content,
        )),
{
    let n = line.unicode_len();
    if n == 0 {
        return None;
    }
    let c = line.get_char(0);
    if c == 'T' || c == 'F' {
        let content = trim(line.substring_char(1, n));
        proof {
            lemma_trim_spec_trimmed(line@.subrange(1, line@.len() as int));
        }
        Some(Task { content, completed: c == 'T' })
    } else {
        None
    }
}

} // verus!
