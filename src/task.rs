//! Task lines: `- body words _keyword _keyword ...`.
use crate::datetime::{
    cleaned, naive_of, parse_date_time, today, CivilDate, CivilDateTime, LocalDateTime,
};
use crate::duration::{duration_of, parse_duration};
use crate::errors::ParsingError;
use crate::text::{
    has_prefix, lower_of, same_text, split_on, split_str, starts_with, strip_all, strip_alnum,
    strip_alnum_str, strip_prefix_all, to_lower, trim, trim_start, trim_str,
};
use vstd::prelude::*;

verus! {

/// One actionable item of a todo file.
#[derive(Debug)]
pub struct Task {
    body: String,
    goal: Option<String>,
    due: Option<LocalDateTime>,
    timestamp: Option<LocalDateTime>,
    tracking: Option<bool>,
    duration: Option<i64>,
    repeat: Option<char>,
}

/// What a task holds; date-times as their wall-clock readings.
pub struct TaskView {
    pub body: Seq<char>,
    pub goal: Option<Seq<char>>,
    pub due: Option<CivilDateTime>,
    pub timestamp: Option<CivilDateTime>,
    pub tracking: Option<bool>,
    pub duration: Option<int>,
    pub repeat: Option<char>,
}

/// What one keyword token sets.
pub enum Keyword {
    Due(CivilDateTime),
    Timestamp(CivilDateTime),
    Repeat(char),
    Tracking(bool),
    Duration(int),
}

pub open spec fn wall_clock(d: Option<LocalDateTime>) -> Option<CivilDateTime> {
    match d {
        Some(x) => Some(x.local),
        None => None,
    }
}

impl View for Task {
    type V = TaskView;

    closed spec fn view(&self) -> TaskView {
        TaskView {
            body: self.body@,
            goal: match self.goal {
                Some(g) => Some(g@),
                None => None,
            },
            due: wall_clock(self.due),
            timestamp: wall_clock(self.timestamp),
            tracking: self.tracking,
            duration: match self.duration {
                Some(t) => Some(t as int),
                None => None,
            },
            repeat: self.repeat,
        }
    }
}

/// The repeat code of a token: in lower case and trimmed, with its leading
/// `_r` removed, exactly one of `d`, `w`, `m`, `y`.
pub open spec fn repeat_of(token: Seq<char>) -> Option<char> {
    repeat_in(lower_of(token))
}

/// The repeat code of a token already in lower case.
pub open spec fn repeat_in(lowered: Seq<char>) -> Option<char> {
    let c = strip_all(trim(lowered), "_r"@);
    if c.len() == 1 && (c[0] == 'd' || c[0] == 'w' || c[0] == 'm' || c[0] == 'y') {
        Some(c[0])
    } else {
        None
    }
}

/// A token that, in lower case and trimmed, begins with `_t` marks tracking.
pub open spec fn tracking_of(token: Seq<char>) -> Option<bool> {
    tracking_in(lower_of(token))
}

/// Whether a token already in lower case marks tracking.
pub open spec fn tracking_in(lowered: Seq<char>) -> Option<bool> {
    if starts_with(trim(lowered), "_t"@) {
        Some(true)
    } else {
        None
    }
}

/// A token in lower case and trimmed.
pub open spec fn folded(token: Seq<char>) -> Seq<char> {
    trim(lower_of(token))
}

/// What a keyword token sets, trying in order: a due date (a token that, in
/// lower case and trimmed, begins with `_due`, read as a date-time once that is
/// removed), a timestamp, a repeat code, the tracking flag and a duration.
pub open spec fn classify(token: Seq<char>, today: CivilDate) -> Option<Keyword> {
    let due = if starts_with(folded(token), "_due"@) {
        naive_of(cleaned(strip_all(folded(token), "_due"@)), today)
    } else {
        None
    };
    if due is Some {
        Some(Keyword::Due(due->0))
    } else if naive_of(cleaned(token), today) is Some {
        Some(Keyword::Timestamp(naive_of(cleaned(token), today)->0))
    } else if repeat_of(token) is Some {
        Some(Keyword::Repeat(repeat_of(token)->0))
    } else if tracking_of(token) is Some {
        Some(Keyword::Tracking(true))
    } else if duration_of(token) is Some {
        Some(Keyword::Duration(duration_of(token)->0))
    } else {
        None
    }
}

pub open spec fn empty_view() -> TaskView {
    TaskView {
        body: Seq::empty(),
        goal: None,
        due: None,
        timestamp: None,
        tracking: None,
        duration: None,
        repeat: None,
    }
}

pub open spec fn apply(t: TaskView, k: Keyword) -> TaskView {
    match k {
        Keyword::Due(d) => TaskView { due: Some(d), ..t },
        Keyword::Timestamp(d) => TaskView { timestamp: Some(d), ..t },
        Keyword::Repeat(c) => TaskView { repeat: Some(c), ..t },
        Keyword::Tracking(b) => TaskView { tracking: Some(b), ..t },
        Keyword::Duration(s) => TaskView { duration: Some(s), ..t },
    }
}

/// The effect of one word: a keyword sets its field, or fails as the word
/// itself; a lone `-` is dropped; any other word joins the body after a space.
pub open spec fn step(t: TaskView, w: Seq<char>, today: CivilDate) -> Result<TaskView, Seq<char>> {
    if starts_with(w, "_"@) {
        match classify(w, today) {
            Some(k) => Ok(apply(t, k)),
            None => Err(w),
        }
    } else if w == "-"@ {
        Ok(t)
    } else {
        Ok(TaskView { body: t.body + " "@ + w, ..t })
    }
}

/// The words of a line, read one after another.
pub open spec fn scan(words: Seq<Seq<char>>, today: CivilDate) -> Result<TaskView, Seq<char>>
    decreases words.len(),
{
    if words.len() == 0 {
        Ok(empty_view())
    } else {
        match scan(words.drop_last(), today) {
            Ok(t) => step(t, words.last(), today),
            Err(w) => Err(w),
        }
    }
}

/// The words of a task line: trimmed, without its leading run of alphanumeric
/// characters, split on single spaces.
pub open spec fn line_words(line: Seq<char>) -> Seq<Seq<char>> {
    split_on(strip_alnum(trim(line)), ' ')
}

/// The task that a line denotes, or the message of its failure.
pub open spec fn task_of(line: Seq<char>, today: CivilDate) -> Result<TaskView, Seq<char>> {
    match scan(line_words(line), today) {
        Err(w) => Err(keyword_message(w)),
        Ok(t) => if trim(t.body).len() == 0 {
            Err("Task body should not be empty"@)
        } else {
            Ok(TaskView { body: trim(t.body), ..t })
        },
    }
}

pub open spec fn keyword_message(w: Seq<char>) -> Seq<char> {
    "Error parsing keyword '"@ + w + "'"@
}

/// Whether `r` is what `task_of` gives for `line` on the day `today`.
pub open spec fn parsed_as(r: Result<Task, ParsingError>, line: Seq<char>, today: CivilDate) -> bool {
    match task_of(line, today) {
        Ok(v) => r matches Ok(t) && t@ == v,
        Err(m) => r matches Err(ParsingError::String(e)) && e@ == m,
    }
}

/// Reads a repeat token (`_rd`, `_RW`, ...) as its lower-case code.
pub fn parse_repeat(token: &str) -> (r: Option<char>)
    ensures
        r == repeat_of(token@),
{
    let lowered = to_lower(token);
    parse_repeat_lowered(lowered.as_str())
}

/// Reads a repeat token already in lower case.
pub fn parse_repeat_lowered(lowered: &str) -> (r: Option<char>)
    ensures
        r == repeat_in(lowered@),
{
    let c = strip_prefix_all(trim_str(lowered), "_r");
    if c.unicode_len() != 1 {
        return None;
    }
    let ch = c.get_char(0);
    if ch == 'd' || ch == 'w' || ch == 'm' || ch == 'y' {
        Some(ch)
    } else {
        None
    }
}

/// Reads a tracking token (`_t`, `_T...`).
pub fn parse_tracking(token: &str) -> (r: Option<bool>)
    ensures
        r == tracking_of(token@),
{
    let lowered = to_lower(token);
    parse_tracking_lowered(lowered.as_str())
}

/// Reads a tracking token already in lower case.
pub fn parse_tracking_lowered(lowered: &str) -> (r: Option<bool>)
    ensures
        r == tracking_in(lowered@),
{
    if has_prefix(trim_str(lowered), "_t") {
        Some(true)
    } else {
        None
    }
}

impl Task {
    fn new() -> (t: Task)
        ensures
            t@ == empty_view(),
            t.body@.len() == 0,
    {
        Task {
            body: String::new(),
            goal: None,
            due: None,
            timestamp: None,
            tracking: None,
            duration: None,
            repeat: None,
        }
    }

    pub fn body(&self) -> (r: &str)
        ensures
            r@ == self@.body,
    {
        self.body.as_str()
    }

    pub fn goal(&self) -> (r: Option<&str>)
        ensures
            match r {
                Some(g) => self@.goal == Some(g@),
                None => self@.goal is None,
            },
    {
        match &self.goal {
            Some(g) => Some(g.as_str()),
            None => None,
        }
    }

    pub fn due(&self) -> (r: Option<LocalDateTime>)
        ensures
            wall_clock(r) == self@.due,
    {
        self.due
    }

    pub fn timestamp(&self) -> (r: Option<LocalDateTime>)
        ensures
            wall_clock(r) == self@.timestamp,
    {
        self.timestamp
    }

    pub fn tracking(&self) -> (r: Option<bool>)
        ensures
            r == self@.tracking,
    {
        self.tracking
    }

    /// The duration in whole seconds.
    pub fn duration_seconds(&self) -> (r: Option<i64>)
        ensures
            match r {
                Some(t) => self@.duration == Some(t as int),
                None => self@.duration is None,
            },
    {
        self.duration
    }

    pub fn repeat(&self) -> (r: Option<char>)
        ensures
            r == self@.repeat,
    {
        self.repeat
    }

    /// Attaches a goal; an empty goal is refused and leaves the task as it was.
    pub fn set_goal(&mut self, val: String) -> (r: bool)
        ensures
            r == (val@.len() > 0),
            r ==> final(self)@ == (TaskView { goal: Some(val@), ..old(self)@ }),
            !r ==> final(self)@ == old(self)@,
    {
        if val.as_str().unicode_len() == 0 {
            return false;
        }
        self.goal = Some(val);
        true
    }
}

proof fn lemma_scan_err_extends(words: Seq<Seq<char>>, n: int, today: CivilDate)
    requires
        0 <= n <= words.len(),
        scan(words.subrange(0, n), today) is Err,
    ensures
        scan(words, today) == scan(words.subrange(0, n), today),
    decreases words.len() - n,
{
    if n < words.len() {
        assert(words.subrange(0, n + 1).drop_last() =~= words.subrange(0, n));
        lemma_scan_err_extends(words, n + 1, today);
    } else {
        assert(words.subrange(0, n) =~= words);
    }
}

/// Sets the field that a keyword token denotes; `false`, and nothing changed,
/// where the token is no keyword.
fn apply_keyword(t: &mut Task, word: &str, today: CivilDate) -> (ok: bool)
    requires
        today.valid(),
    ensures
        match classify(word@, today) {
            Some(k) => ok && final(t)@ == apply(old(t)@, k),
            None => !ok && final(t)@ == old(t)@,
        },
{
    let lowered = to_lower(word);
    let w = trim_str(lowered.as_str());
    if has_prefix(w, "_due") {
        if let Ok(d) = parse_date_time(strip_prefix_all(w, "_due"), today) {
            t.due = Some(d);
            return true;
        }
    }
    if let Ok(d) = parse_date_time(word, today) {
        t.timestamp = Some(d);
        return true;
    }
    if let Some(c) = parse_repeat(word) {
        t.repeat = Some(c);
        return true;
    }
    if let Some(b) = parse_tracking(word) {
        t.tracking = Some(b);
        return true;
    }
    if let Some(secs) = parse_duration(word) {
        t.duration = Some(secs);
        return true;
    }
    false
}

impl Task {
    /// Reads a task line on the day `today`, against which a time of day
    /// without a date is taken. The line is trimmed and loses its leading run
    /// of alphanumeric characters; its words, split on single spaces, are
    /// keywords (beginning with `_`), the lone marker `-`, or body words.
    pub fn from_string_on(task_string: &str, today: CivilDate) -> (r: Result<Task, ParsingError>)
        requires
            today.valid(),
        ensures
            parsed_as(r, task_string@, today),
    {
        let mut t = Task::new();
        let s = strip_alnum_str(trim_str(task_string));
        let words = split_str(s, ' ');
        let ghost ws = words@.map_values(|w: &str| w@);
        assert(ws == line_words(task_string@));
        let mut i: usize = 0;
        assert(ws.subrange(0, 0) =~= Seq::<Seq<char>>::empty());
        while i < words.len()
            invariant
                today.valid(),
                ws == words@.map_values(|w: &str| w@),
                ws == line_words(task_string@),
                i <= words@.len(),
                scan(ws.subrange(0, i as int), today) == Ok::<TaskView, Seq<char>>(t@),
            decreases words@.len() - i,
        {
            let word = words[i];
            let ghost pre = ws.subrange(0, i + 1);
            assert(pre.drop_last() =~= ws.subrange(0, i as int));
            assert(pre.last() == word@);
            if has_prefix(word, "_") {
                if !apply_keyword(&mut t, word, today) {
                    let mut msg = String::from_str("Error parsing keyword '");
                    msg.append(word);
                    msg.append("'");
                    proof {
                        lemma_scan_err_extends(ws, i + 1, today);
                    }
                    return Err(ParsingError::String(msg));
                }
            } else if !same_text(word, "-") {
                t.body.append(" ");
                t.body.append(word);
            }
            i = i + 1;
        }
        assert(ws.subrange(0, words@.len() as int) =~= ws);
        let body = String::from_str(trim_str(t.body.as_str()));
        if body.as_str().unicode_len() == 0 {
            return Err(ParsingError::String(String::from_str("Task body should not be empty")));
        }
        t.body = body;
        Ok(t)
    }

    /// Reads a task line, taking a time of day without a date on today's date
    /// in the local time zone.
    pub fn from_string(task_string: &str) -> (r: Result<Task, ParsingError>)
        ensures
            exists|d: CivilDate| d.valid() && parsed_as(r, task_string@, d),
    {
        let d = today();
        Task::from_string_on(task_string, d)
    }
}

/// The body words of `words` joined, each after a space; lone `-` markers are
/// left out.
pub open spec fn join_body(words: Seq<Seq<char>>) -> Seq<char>
    decreases words.len(),
{
    if words.len() == 0 {
        Seq::empty()
    } else if words.last() == "-"@ {
        join_body(words.drop_last())
    } else {
        join_body(words.drop_last()) + " "@ + words.last()
    }
}

proof fn lemma_scan_plain(words: Seq<Seq<char>>, today: CivilDate)
    requires
        forall|i: int| 0 <= i < words.len() ==> !starts_with(#[trigger] words[i], "_"@),
    ensures
        scan(words, today) == Ok::<TaskView, Seq<char>>(
            TaskView { body: join_body(words), ..empty_view() },
        ),
    decreases words.len(),
{
    if words.len() > 0 {
        assert(!starts_with(words[words.len() - 1], "_"@));
        lemma_scan_plain(words.drop_last(), today);
    }
}

/// A task line without keyword tokens gives the task whose body is its other
/// words joined by single spaces and trimmed, with no other field set; it
/// fails only where that body is empty.
pub proof fn lemma_plain_line_body(line: Seq<char>, today: CivilDate)
    requires
        forall|i: int|
            0 <= i < line_words(line).len() ==> !starts_with(#[trigger] line_words(line)[i], "_"@),
    ensures
        task_of(line, today) == if trim(join_body(line_words(line))).len() == 0 {
            Err::<TaskView, Seq<char>>("Task body should not be empty"@)
        } else {
            Ok(TaskView { body: trim(join_body(line_words(line))), ..empty_view() })
        },
{
    lemma_scan_plain(line_words(line), today);
}

proof fn lemma_scan_keywords_only(words: Seq<Seq<char>>, today: CivilDate)
    requires
        forall|i: int|
            0 <= i < words.len() ==> starts_with(#[trigger] words[i], "_"@) || words[i] == "-"@
                || words[i].len() == 0,
    ensures
        scan(words, today) matches Ok(t) ==> forall|j: int| 0 <= j < t.body.len() ==> t.body[j] == ' ',
    decreases words.len(),
{
    if words.len() > 0 {
        let w = words[words.len() - 1];
        assert(starts_with(w, "_"@) || w == "-"@ || w.len() == 0);
        lemma_scan_keywords_only(words.drop_last(), today);
        if scan(words.drop_last(), today) is Ok {
            let t = scan(words.drop_last(), today)->Ok_0;
            if !starts_with(w, "_"@) && w != "-"@ {
                reveal_strlit(" ");
                assert(w =~= Seq::<char>::empty());
                let b = t.body + " "@ + w;
                assert(b =~= t.body.push(' '));
            }
        }
    }
}

proof fn lemma_trim_spaces(s: Seq<char>)
    requires
        forall|j: int| 0 <= j < s.len() ==> s[j] == ' ',
    ensures
        trim(s).len() == 0,
    decreases s.len(),
{
    if s.len() > 0 {
        assert(forall|j: int| 0 <= j < s.drop_first().len() ==> s.drop_first()[j] == s[j + 1]);
        lemma_trim_spaces(s.drop_first());
        assert(trim_start(s) == trim_start(s.drop_first()));
    } else {
        assert(trim_start(s) == s);
    }
}

/// A task line whose words are all keyword tokens, besides the `-` marker and
/// empty words between repeated spaces, always fails: either a token is no
/// keyword, or the body is empty once trimmed.
pub proof fn lemma_keywords_only_line_fails(line: Seq<char>, today: CivilDate)
    requires
        forall|i: int|
            0 <= i < line_words(line).len() ==> starts_with(#[trigger] line_words(line)[i], "_"@)
                || line_words(line)[i] == "-"@ || line_words(line)[i].len() == 0,
    ensures
        task_of(line, today) is Err,
{
    lemma_scan_keywords_only(line_words(line), today);
    if scan(line_words(line), today) is Ok {
        let t = scan(line_words(line), today)->Ok_0;
        lemma_trim_spaces(t.body);
    }
}

/// A token that, in any case, begins with `_due` and is a date-time once that
/// is removed sets the due date and leaves the timestamp alone; a date-time
/// token that does not begin with `_due` sets the timestamp and leaves the due
/// date alone.
pub proof fn lemma_due_or_timestamp(t: TaskView, token: Seq<char>, today: CivilDate)
    requires
        starts_with(token, "_"@),
    ensures
        starts_with(folded(token), "_due"@) && naive_of(
            cleaned(strip_all(folded(token), "_due"@)),
            today,
        ) is Some ==> (step(t, token, today) matches Ok(u) && u.due == naive_of(
            cleaned(strip_all(folded(token), "_due"@)),
            today,
        ) && u.timestamp == t.timestamp),
        !starts_with(folded(token), "_due"@) && naive_of(cleaned(token), today) is Some ==> (step(
            t,
            token,
            today,
        ) matches Ok(u) && u.timestamp == naive_of(cleaned(token), today) && u.due == t.due),
{
}

proof fn lemma_scan_no_goal(words: Seq<Seq<char>>, today: CivilDate)
    ensures
        scan(words, today) matches Ok(t) ==> t.goal is None,
    decreases words.len(),
{
    if words.len() > 0 {
        lemma_scan_no_goal(words.drop_last(), today);
    }
}

/// A task read from a line has no goal of its own.
pub proof fn lemma_line_has_no_goal(line: Seq<char>, today: CivilDate)
    ensures
        task_of(line, today) matches Ok(v) ==> v.goal is None,
{
    lemma_scan_no_goal(line_words(line), today);
}

} // verus!
