//! The todo reader: `#` lines set the current goal, `-` lines are tasks.
use crate::datetime::{today, CivilDate};
use crate::errors::ParsingError;
use crate::task::{lemma_line_has_no_goal, task_of, Task, TaskView};
use crate::text::{decimal, decimal_str, has_prefix, starts_with, trim, trim_str};
use vstd::prelude::*;

verus! {

/// `s` without its leading run of `#` and space characters.
pub open spec fn strip_marks(s: Seq<char>) -> Seq<char>
    decreases s.len(),
{
    if s.len() > 0 && (s[0] == '#' || s[0] == ' ') {
        strip_marks(s.drop_first())
    } else {
        s
    }
}

pub open spec fn is_task_line(l: Seq<char>) -> bool {
    starts_with(trim(l), "-"@)
}

pub open spec fn is_goal_line(l: Seq<char>) -> bool {
    !is_task_line(l) && starts_with(trim(l), "#"@)
}

/// The current goal once `lines` have been read: the text of the last goal
/// line, empty before any.
pub open spec fn goal_after(lines: Seq<Seq<char>>) -> Seq<char>
    decreases lines.len(),
{
    if lines.len() == 0 {
        Seq::empty()
    } else if is_goal_line(lines.last()) {
        strip_marks(trim(lines.last()))
    } else {
        goal_after(lines.drop_last())
    }
}

/// A task with the goal `g` attached, where `g` is not empty.
pub open spec fn with_goal(v: TaskView, g: Seq<char>) -> TaskView {
    if g.len() > 0 {
        TaskView { goal: Some(g), ..v }
    } else {
        v
    }
}

pub open spec fn todo_message(n: nat, m: Seq<char>) -> Seq<char> {
    "Cannot parse todo on line "@ + decimal(n) + ": "@ + "Error parsing string: "@ + m
}

/// The tasks of a todo file, in order, or the message of the first failure.
pub open spec fn todo_of(lines: Seq<Seq<char>>, today: CivilDate) -> Result<Seq<TaskView>, Seq<char>>
    decreases lines.len(),
{
    if lines.len() == 0 {
        Ok(Seq::empty())
    } else {
        match todo_of(lines.drop_last(), today) {
            Err(e) => Err(e),
            Ok(ts) => if is_task_line(lines.last()) {
                match task_of(trim(lines.last()), today) {
                    Err(m) => Err(todo_message(lines.len(), m)),
                    Ok(v) => Ok(ts.push(with_goal(v, goal_after(lines.drop_last())))),
                }
            } else {
                Ok(ts)
            },
        }
    }
}

pub open spec fn tasks_view(ts: Seq<Task>) -> Seq<TaskView> {
    ts.map_values(|t: Task| t@)
}

/// Whether `r` is what `todo_of` gives for `lines` on the day `today`.
pub open spec fn todo_parsed_as(
    r: Result<Vec<Task>, ParsingError>,
    lines: Seq<Seq<char>>,
    today: CivilDate,
) -> bool {
    match todo_of(lines, today) {
        Ok(ts) => r matches Ok(v) && tasks_view(v@) == ts,
        Err(m) => r matches Err(ParsingError::File(e)) && e@ == m,
    }
}

fn strip_marks_str(s: &str) -> (r: &str)
    ensures
        r@ == strip_marks(s@),
{
    let n = s.unicode_len();
    let mut i: usize = 0;
    assert(s@.subrange(0, n as int) =~= s@);
    while i < n && (s.get_char(i) == '#' || s.get_char(i) == ' ')
        invariant
            n == s@.len(),
            i <= n,
            strip_marks(s@) == strip_marks(s@.subrange(i as int, n as int)),
        decreases n - i,
    {
        assert(s@.subrange(i as int, n as int).drop_first() =~= s@.subrange(i + 1, n as int));
        i = i + 1;
    }
    s.substring_char(i, n)
}

proof fn lemma_todo_err_extends(lines: Seq<Seq<char>>, n: int, today: CivilDate)
    requires
        0 <= n <= lines.len(),
        todo_of(lines.subrange(0, n), today) is Err,
    ensures
        todo_of(lines, today) == todo_of(lines.subrange(0, n), today),
    decreases lines.len() - n,
{
    if n < lines.len() {
        assert(lines.subrange(0, n + 1).drop_last() =~= lines.subrange(0, n));
        lemma_todo_err_extends(lines, n + 1, today);
    } else {
        assert(lines.subrange(0, n) =~= lines);
    }
}

/// Reads the lines of a todo file on the day `today`, against which a time of
/// day without a date is taken.
pub fn parse_todo_lines(lines: &Vec<String>, today: CivilDate) -> (r: Result<Vec<Task>, ParsingError>)
    requires
        today.valid(),
    ensures
        todo_parsed_as(r, lines@.map_values(|l: String| l@), today),
{
    let ghost ls = lines@.map_values(|l: String| l@);
    let mut tasks: Vec<Task> = Vec::new();
    let mut current_goal = String::new();
    let mut i: usize = 0;
    assert(ls.subrange(0, 0) =~= Seq::<Seq<char>>::empty());
    assert(tasks_view(tasks@) =~= Seq::<TaskView>::empty());
    while i < lines.len()
        invariant
            today.valid(),
            ls == lines@.map_values(|l: String| l@),
            i <= lines@.len(),
            todo_of(ls.subrange(0, i as int), today) == Ok::<Seq<TaskView>, Seq<char>>(
                tasks_view(tasks@),
            ),
            current_goal@ == goal_after(ls.subrange(0, i as int)),
        decreases lines@.len() - i,
    {
        let ghost pre = ls.subrange(0, i + 1);
        assert(pre.drop_last() =~= ls.subrange(0, i as int));
        assert(pre.last() == lines@[i as int]@);
        let line = trim_str(lines[i].as_str());
        if has_prefix(line, "-") {
            match Task::from_string_on(line, today) {
                Ok(t) => {
                    let mut t = t;
                    let ghost before = tasks_view(tasks@);
                    let g = current_goal.clone();
                    t.set_goal(g);
                    tasks.push(t);
                    assert(tasks_view(tasks@) =~= before.push(t@));
                },
                Err(e) => {
                    let mut msg = String::from_str("Cannot parse todo on line ");
                    let num = decimal_str(i + 1);
                    msg.append(num.as_str());
                    msg.append(": ");
                    let d = e.describe();
                    msg.append(d.as_str());
                    assert(line@ == trim(pre.last()));
                    assert(is_task_line(pre.last()));
                    let ghost m = task_of(line@, today)->Err_0;
                    assert(task_of(line@, today) is Err);
                    assert(msg@ == todo_message((i + 1) as nat, m));
                    assert(todo_of(pre, today) == Err::<Seq<TaskView>, Seq<char>>(
                        todo_message((i + 1) as nat, m),
                    ));
                    proof {
                        lemma_todo_err_extends(ls, i + 1, today);
                    }
                    return Err(ParsingError::File(msg));
                },
            }
        } else if has_prefix(line, "#") {
            current_goal = String::from_str(strip_marks_str(line));
        }
        i = i + 1;
    }
    assert(ls.subrange(0, lines@.len() as int) =~= ls);
    Ok(tasks)
}

/// Reads the lines of a todo file, taking a time of day without a date on
/// today's date in the local time zone.
pub fn read_parse_todo_file(lines: &Vec<String>) -> (r: Result<Vec<Task>, ParsingError>)
    ensures
        exists|d: CivilDate| d.valid() && todo_parsed_as(r, lines@.map_values(|l: String| l@), d),
{
    let d = today();
    parse_todo_lines(lines, d)
}

/// After a goal line, and until the next one, the current goal is that line's
/// text without its leading `#` and space characters.
pub proof fn lemma_goal_scope(lines: Seq<Seq<char>>, j: int, k: int)
    requires
        0 <= j < k <= lines.len(),
        is_goal_line(lines[j]),
        forall|m: int| j < m < k ==> !is_goal_line(#[trigger] lines[m]),
    ensures
        goal_after(lines.subrange(0, k)) == strip_marks(trim(lines[j])),
    decreases k - j,
{
    let pre = lines.subrange(0, k);
    assert(pre.drop_last() =~= lines.subrange(0, k - 1));
    assert(pre.last() == lines[k - 1]);
    if k - 1 > j {
        assert(!is_goal_line(lines[k - 1]));
        lemma_goal_scope(lines, j, k - 1);
    }
}

/// Before any goal line there is no current goal.
pub proof fn lemma_no_goal_before_heading(lines: Seq<Seq<char>>, k: int)
    requires
        0 <= k <= lines.len(),
        forall|m: int| 0 <= m < k ==> !is_goal_line(#[trigger] lines[m]),
    ensures
        goal_after(lines.subrange(0, k)) == Seq::<char>::empty(),
    decreases k,
{
    if k > 0 {
        let pre = lines.subrange(0, k);
        assert(pre.drop_last() =~= lines.subrange(0, k - 1));
        assert(pre.last() == lines[k - 1]);
        assert(!is_goal_line(lines[k - 1]));
        lemma_no_goal_before_heading(lines, k - 1);
    }
}

/// A task line read after the lines `before` carries the current goal, and no
/// goal where that is empty (before any goal line, or after an empty one).
pub proof fn lemma_task_takes_current_goal(
    before: Seq<Seq<char>>,
    line: Seq<char>,
    today: CivilDate,
)
    requires
        todo_of(before, today) is Ok,
        is_task_line(line),
        task_of(trim(line), today) is Ok,
    ensures
        todo_of(before.push(line), today) matches Ok(ts) && ts.last().goal == if goal_after(
            before,
        ).len() > 0 {
            Some(goal_after(before))
        } else {
            None
        },
{
    assert(before.push(line).drop_last() =~= before);
    lemma_line_has_no_goal(trim(line), today);
}

/// A task line carries the goal of the last goal line above it, where that goal
/// is not empty, and no goal otherwise.
pub proof fn lemma_task_goal_from_heading(
    before: Seq<Seq<char>>,
    line: Seq<char>,
    today: CivilDate,
    h: int,
)
    requires
        todo_of(before, today) is Ok,
        is_task_line(line),
        task_of(trim(line), today) is Ok,
        0 <= h < before.len(),
        is_goal_line(before[h]),
        forall|m: int| h < m < before.len() ==> !is_goal_line(#[trigger] before[m]),
    ensures
        todo_of(before.push(line), today) matches Ok(ts) && ts.last().goal == if strip_marks(
            trim(before[h]),
        ).len() > 0 {
            Some(strip_marks(trim(before[h])))
        } else {
            None
        },
{
    lemma_goal_scope(before, h, before.len() as int);
    assert(before.subrange(0, before.len() as int) =~= before);
    lemma_task_takes_current_goal(before, line, today);
}

/// A task line with no goal line above it carries no goal.
pub proof fn lemma_task_without_heading(before: Seq<Seq<char>>, line: Seq<char>, today: CivilDate)
    requires
        todo_of(before, today) is Ok,
        is_task_line(line),
        task_of(trim(line), today) is Ok,
        forall|m: int| 0 <= m < before.len() ==> !is_goal_line(#[trigger] before[m]),
    ensures
        todo_of(before.push(line), today) matches Ok(ts) && ts.last().goal is None,
{
    lemma_no_goal_before_heading(before, before.len() as int);
    assert(before.subrange(0, before.len() as int) =~= before);
    lemma_task_takes_current_goal(before, line, today);
}

} // verus!
