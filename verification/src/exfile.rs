//! The exfile: a plain-text list of tasks with their scripts, dependencies,
//! shared defaults and per-task attributes. `parse` turns the text into
//! tasks; `schedule` orders a task after everything it depends on.
use vstd::prelude::*;
use crate::text::{
    chars_of, copy_range, eq, eq_str, find, find_char, find_char_in, find_in, is_alpha,
    is_ascii_alpha, is_ascii_digit, is_ascii_upper, is_digit, is_upper, is_ws,
    back_ws, lemma_find_char_from, lemma_find_from, lemma_trim_end, lemma_trim_start, lowercased, skip_ws, trim_end, trim_start, parse_uint, parse_uint_in, push_range,
    split_char, split_once, split_once_char, string_of, string_of_str, to_lower, trim, trim_range,
    trimmed, words, words_in, lines, split_char_in, split_lines, starts_with, starts_with_in,
    ends_with, ends_with_in, sort_unique, strictly_sorted, sort_strings, sorted_seqs, dec, push_dec,
    push_str, all_digits, dec_val, occurs_at,
};

verus! {

/// The file name searched for from the working directory upward.
pub const FILE_NAME: &'static str = "exfile";

/// One task of an exfile, with the defaults and attributes applied.
#[derive(Clone, Debug)]
pub struct Task {
    pub name: String,
    pub script: String,
    pub servers: Vec<String>,
    pub deps: Vec<String>,
    pub env: Vec<(String, String)>,
    pub shell: String,
    pub args: Vec<String>,
    pub image: Option<String>,
    pub cpus: Option<u32>,
    pub mem_bytes: Option<u64>,
    pub gpus: u32,
    pub disk_bytes: Option<u64>,
    pub time_secs: Option<u64>,
    pub replicas: u32,
    pub live: bool,
    pub outputs: Vec<String>,
}

/// The mathematical value of a [`Task`]: its strings as character sequences.
pub struct TaskView {
    pub name: Seq<char>,
    pub script: Seq<char>,
    pub servers: Seq<Seq<char>>,
    pub deps: Seq<Seq<char>>,
    pub env: Seq<(Seq<char>, Seq<char>)>,
    pub shell: Seq<char>,
    pub args: Seq<Seq<char>>,
    pub image: Option<Seq<char>>,
    pub cpus: Option<u32>,
    pub mem_bytes: Option<u64>,
    pub gpus: u32,
    pub disk_bytes: Option<u64>,
    pub time_secs: Option<u64>,
    pub replicas: u32,
    pub live: bool,
    pub outputs: Seq<Seq<char>>,
}

impl View for Task {
    type V = TaskView;

    open spec fn view(&self) -> TaskView {
        TaskView {
            name: self.name@,
            script: self.script@,
            servers: self.servers.deep_view(),
            deps: self.deps.deep_view(),
            env: self.env.deep_view(),
            shell: self.shell@,
            args: self.args.deep_view(),
            image: self.image.deep_view(),
            cpus: self.cpus,
            mem_bytes: self.mem_bytes,
            gpus: self.gpus,
            disk_bytes: self.disk_bytes,
            time_secs: self.time_secs,
            replicas: self.replicas,
            live: self.live,
            outputs: self.outputs.deep_view(),
        }
    }
}

/// A task with every field empty, zero or off.
pub open spec fn empty_task() -> TaskView {
    TaskView {
        name: seq![],
        script: seq![],
        servers: seq![],
        deps: seq![],
        env: seq![],
        shell: seq![],
        args: seq![],
        image: None,
        cpus: None,
        mem_bytes: None,
        gpus: 0,
        disk_bytes: None,
        time_secs: None,
        replicas: 0,
        live: false,
        outputs: seq![],
    }
}

impl Default for Task {
    fn default() -> (t: Task)
        ensures
            t@ == empty_task(),
    {
        let t = Task {
            name: String::new(),
            script: String::new(),
            servers: Vec::new(),
            deps: Vec::new(),
            env: Vec::new(),
            shell: String::new(),
            args: Vec::new(),
            image: None,
            cpus: None,
            mem_bytes: None,
            gpus: 0,
            disk_bytes: None,
            time_secs: None,
            replicas: 0,
            live: false,
            outputs: Vec::new(),
        };
        assert(t.servers.deep_view() =~= seq![]);
        assert(t.deps.deep_view() =~= seq![]);
        assert(t.env.deep_view() =~= seq![]);
        assert(t.args.deep_view() =~= seq![]);
        assert(t.outputs.deep_view() =~= seq![]);
        t
    }
}

/// A copy of a list of strings.
pub fn copy_strings(v: &Vec<String>) -> (r: Vec<String>)
    ensures
        r@ == v@,
        r.deep_view() == v.deep_view(),
{
    let mut r: Vec<String> = Vec::new();
    let mut i: usize = 0;
    while i < v.len()
        invariant
            i <= v@.len(),
            r@ == v@.take(i as int),
        decreases v@.len() - i,
    {
        r.push(v[i].clone());
        assert(r@ =~= v@.take(i + 1));
        i += 1;
    }
    assert(v@.take(v@.len() as int) =~= v@);
    assert(r.deep_view() =~= v.deep_view());
    r
}

/// A copy of a list of string pairs.
pub fn copy_pairs(v: &Vec<(String, String)>) -> (r: Vec<(String, String)>)
    ensures
        r@ == v@,
        r.deep_view() == v.deep_view(),
{
    let mut r: Vec<(String, String)> = Vec::new();
    let mut i: usize = 0;
    while i < v.len()
        invariant
            i <= v@.len(),
            r@ == v@.take(i as int),
        decreases v@.len() - i,
    {
        let p = (v[i].0.clone(), v[i].1.clone());
        r.push(p);
        assert(r@ =~= v@.take(i + 1));
        i += 1;
    }
    assert(v@.take(v@.len() as int) =~= v@);
    assert(r.deep_view() =~= v.deep_view());
    r
}

impl Task {
    /// A field-by-field copy of the task.
    pub fn duplicate(&self) -> (r: Task)
        ensures
            r@ == self@,
    {
        let image = match &self.image {
            Some(s) => Some(s.clone()),
            None => None,
        };
        Task {
            name: self.name.clone(),
            script: self.script.clone(),
            servers: copy_strings(&self.servers),
            deps: copy_strings(&self.deps),
            env: copy_pairs(&self.env),
            shell: self.shell.clone(),
            args: copy_strings(&self.args),
            image,
            cpus: self.cpus,
            mem_bytes: self.mem_bytes,
            gpus: self.gpus,
            disk_bytes: self.disk_bytes,
            time_secs: self.time_secs,
            replicas: self.replicas,
            live: self.live,
            outputs: copy_strings(&self.outputs),
        }
    }
}

/// Why an exfile was refused or a task could not be scheduled. Lines count
/// from one.
#[derive(Clone, Debug)]
pub enum ExfileError {
    /// `[` without a closing `]`.
    ExpectedAttrs { line: usize },
    /// An attribute without `key: value` inside `[ ]`.
    ExpectedKeyValue { line: usize },
    /// `${` without a closing `}`.
    UnclosedVar { line: usize },
    /// `${name}` naming no variable defined so far.
    UndefinedVar { line: usize, name: String },
    /// A task name that is not a letter followed by letters, digits, `_`, `-`,
    /// or that is `ps` or `attach`.
    InvalidName { line: usize, name: String },
    /// A dependency that is not a valid task name.
    InvalidDep { line: usize, dep: String },
    /// A line that is neither a comment, an attribute list, a default nor a task.
    Unrecognized { line: usize, text: String },
    /// Attributes at the end of the file, with no task after them.
    DanglingAttrs { line: usize },
    /// A file without tasks.
    NoTasks,
    /// A task without a script and without dependencies.
    EmptyBody { task: String, line: usize },
    /// A live workspace with more than one replica.
    LiveReplicas { task: String },
    /// GPUs without a container image.
    GpusWithoutImage { task: String },
    /// A task name used twice.
    Duplicate { task: String },
    /// `shell` set to nothing but whitespace.
    EmptyShell { line: usize },
    /// A value that should be a number.
    BadNumber { line: usize, value: String },
    /// A value that should be a size such as `64g`.
    BadSize { line: usize, value: String },
    /// A value that should be a duration such as `12h`.
    BadDuration { line: usize, value: String },
    /// `workspace` other than `sync` or `live`.
    BadWorkspace { line: usize },
    /// A lower-case key that is not a known attribute.
    UnknownKey { line: usize, key: String },
    /// A task that depends on itself through its dependencies.
    Cycle { task: String },
    /// A dependency that names no task.
    UnknownDep { task: String, dep: String },
    /// A task name given to `schedule` that names no task.
    NoSuchTask { task: String },
}

/// The mathematical value of an [`ExfileError`]. `Unsliceable` stands for
/// input on which a task body's common indentation ends inside a multi-byte
/// character; `parse` does not accept such input.
pub enum ExfileErrorView {
    ExpectedAttrs { line: nat },
    ExpectedKeyValue { line: nat },
    UnclosedVar { line: nat },
    UndefinedVar { line: nat, name: Seq<char> },
    InvalidName { line: nat, name: Seq<char> },
    InvalidDep { line: nat, dep: Seq<char> },
    Unrecognized { line: nat, text: Seq<char> },
    DanglingAttrs { line: nat },
    NoTasks,
    EmptyBody { task: Seq<char>, line: nat },
    LiveReplicas { task: Seq<char> },
    GpusWithoutImage { task: Seq<char> },
    Duplicate { task: Seq<char> },
    EmptyShell { line: nat },
    BadNumber { line: nat, value: Seq<char> },
    BadSize { line: nat, value: Seq<char> },
    BadDuration { line: nat, value: Seq<char> },
    BadWorkspace { line: nat },
    UnknownKey { line: nat, key: Seq<char> },
    Cycle { task: Seq<char> },
    UnknownDep { task: Seq<char>, dep: Seq<char> },
    NoSuchTask { task: Seq<char> },
    Unsliceable,
}

impl View for ExfileError {
    type V = ExfileErrorView;

    open spec fn view(&self) -> ExfileErrorView {
        match self {
            ExfileError::ExpectedAttrs { line } => ExfileErrorView::ExpectedAttrs { line: *line as nat },
            ExfileError::ExpectedKeyValue { line } => ExfileErrorView::ExpectedKeyValue {
                line: *line as nat,
            },
            ExfileError::UnclosedVar { line } => ExfileErrorView::UnclosedVar { line: *line as nat },
            ExfileError::UndefinedVar { line, name } => ExfileErrorView::UndefinedVar {
                line: *line as nat,
                name: name@,
            },
            ExfileError::InvalidName { line, name } => ExfileErrorView::InvalidName {
                line: *line as nat,
                name: name@,
            },
            ExfileError::InvalidDep { line, dep } => ExfileErrorView::InvalidDep {
                line: *line as nat,
                dep: dep@,
            },
            ExfileError::Unrecognized { line, text } => ExfileErrorView::Unrecognized {
                line: *line as nat,
                text: text@,
            },
            ExfileError::DanglingAttrs { line } => ExfileErrorView::DanglingAttrs { line: *line as nat },
            ExfileError::NoTasks => ExfileErrorView::NoTasks,
            ExfileError::EmptyBody { task, line } => ExfileErrorView::EmptyBody {
                task: task@,
                line: *line as nat,
            },
            ExfileError::LiveReplicas { task } => ExfileErrorView::LiveReplicas { task: task@ },
            ExfileError::GpusWithoutImage { task } => ExfileErrorView::GpusWithoutImage {
                task: task@,
            },
            ExfileError::Duplicate { task } => ExfileErrorView::Duplicate { task: task@ },
            ExfileError::EmptyShell { line } => ExfileErrorView::EmptyShell { line: *line as nat },
            ExfileError::BadNumber { line, value } => ExfileErrorView::BadNumber {
                line: *line as nat,
                value: value@,
            },
            ExfileError::BadSize { line, value } => ExfileErrorView::BadSize {
                line: *line as nat,
                value: value@,
            },
            ExfileError::BadDuration { line, value } => ExfileErrorView::BadDuration {
                line: *line as nat,
                value: value@,
            },
            ExfileError::BadWorkspace { line } => ExfileErrorView::BadWorkspace { line: *line as nat },
            ExfileError::UnknownKey { line, key } => ExfileErrorView::UnknownKey {
                line: *line as nat,
                key: key@,
            },
            ExfileError::Cycle { task } => ExfileErrorView::Cycle { task: task@ },
            ExfileError::UnknownDep { task, dep } => ExfileErrorView::UnknownDep {
                task: task@,
                dep: dep@,
            },
            ExfileError::NoSuchTask { task } => ExfileErrorView::NoSuchTask { task: task@ },
        }
    }
}

/// `line n: `, the start of a message about line `n`.
pub open spec fn at_line(n: nat) -> Seq<char> {
    "line "@ + dec(n) + ": "@
}

/// `'s'`: a name or a value between single quotes.
pub open spec fn quoted(s: Seq<char>) -> Seq<char> {
    "'"@ + s + "'"@
}

/// The text that reports an exfile error.
pub open spec fn exfile_message(e: ExfileErrorView) -> Seq<char> {
    match e {
        ExfileErrorView::ExpectedAttrs { line } => at_line(line) + "expected [key: value, ...]"@,
        ExfileErrorView::ExpectedKeyValue { line } => at_line(line)
            + "expected key: value inside [ ]"@,
        ExfileErrorView::UnclosedVar { line } => at_line(line) + "unclosed ${"@,
        ExfileErrorView::UndefinedVar { line, name } => at_line(line) + "undefined variable "@
            + quoted(name),
        ExfileErrorView::InvalidName { line, name } => at_line(line) + "invalid task name "@
            + quoted(name),
        ExfileErrorView::InvalidDep { line, dep } => at_line(line) + "invalid dependency "@
            + quoted(dep),
        ExfileErrorView::Unrecognized { line, text } => at_line(line) + "unrecognized line "@
            + quoted(text),
        ExfileErrorView::DanglingAttrs { line } => at_line(line)
            + "attributes without a following task"@,
        ExfileErrorView::NoTasks => "no tasks defined"@,
        ExfileErrorView::EmptyBody { task, line } => "task "@ + quoted(task) + " (line "@ + dec(
            line,
        ) + ") has an empty body"@,
        ExfileErrorView::LiveReplicas { task } => "task "@ + quoted(task)
            + ": live workspace requires replicas = 1"@,
        ExfileErrorView::GpusWithoutImage { task } => "task "@ + quoted(task)
            + ": gpus requires an image"@,
        ExfileErrorView::Duplicate { task } => "task "@ + quoted(task) + " defined twice"@,
        ExfileErrorView::EmptyShell { line } => at_line(line) + "shell needs a command"@,
        ExfileErrorView::BadNumber { line, value } => at_line(line) + "expected a number, got "@
            + quoted(value),
        ExfileErrorView::BadSize { line, value } => at_line(line)
            + "expected a value like 64g, got "@ + quoted(value),
        ExfileErrorView::BadDuration { line, value } => at_line(line)
            + "expected a value like 12h, got "@ + quoted(value),
        ExfileErrorView::BadWorkspace { line } => at_line(line)
            + "workspace must be 'sync' or 'live'"@,
        ExfileErrorView::UnknownKey { line, key } => at_line(line) + "unknown key "@ + quoted(key)
            + " (UPPERCASE keys define env vars)"@,
        ExfileErrorView::Cycle { task } => "dependency cycle at "@ + quoted(task),
        ExfileErrorView::UnknownDep { task, dep } => "task "@ + quoted(task)
            + " depends on unknown task "@ + quoted(dep),
        ExfileErrorView::NoSuchTask { task } => "no task "@ + quoted(task),
        ExfileErrorView::Unsliceable => "byte index is not a char boundary"@,
    }
}

/// Appends `line n: `.
fn push_at_line(out: &mut Vec<char>, n: usize)
    ensures
        final(out)@ == old(out)@ + at_line(n as nat),
{
    push_str(out, "line ");
    push_dec(out, n as u64);
    push_str(out, ": ");
    assert(final(out)@ =~= old(out)@ + at_line(n as nat));
}

/// Appends `s` between single quotes.
fn push_quoted(out: &mut Vec<char>, s: &String)
    ensures
        final(out)@ == old(out)@ + quoted(s@),
{
    push_str(out, "'");
    push_str(out, s.as_str());
    push_str(out, "'");
    assert(final(out)@ =~= old(out)@ + quoted(s@));
}

impl ExfileError {
    /// The text that reports this error, as `exfile_message` says.
    pub fn message(&self) -> (r: String)
        ensures
            r@ == exfile_message(self@),
    {
        let mut v: Vec<char> = Vec::new();
        match self {
            ExfileError::ExpectedAttrs { line } => {
                push_at_line(&mut v, *line);
                push_str(&mut v, "expected [key: value, ...]");
            },
            ExfileError::ExpectedKeyValue { line } => {
                push_at_line(&mut v, *line);
                push_str(&mut v, "expected key: value inside [ ]");
            },
            ExfileError::UnclosedVar { line } => {
                push_at_line(&mut v, *line);
                push_str(&mut v, "unclosed ${");
            },
            ExfileError::UndefinedVar { line, name } => {
                push_at_line(&mut v, *line);
                push_str(&mut v, "undefined variable ");
                push_quoted(&mut v, name);
            },
            ExfileError::InvalidName { line, name } => {
                push_at_line(&mut v, *line);
                push_str(&mut v, "invalid task name ");
                push_quoted(&mut v, name);
            },
            ExfileError::InvalidDep { line, dep } => {
                push_at_line(&mut v, *line);
                push_str(&mut v, "invalid dependency ");
                push_quoted(&mut v, dep);
            },
            ExfileError::Unrecognized { line, text } => {
                push_at_line(&mut v, *line);
                push_str(&mut v, "unrecognized line ");
                push_quoted(&mut v, text);
            },
            ExfileError::DanglingAttrs { line } => {
                push_at_line(&mut v, *line);
                push_str(&mut v, "attributes without a following task");
            },
            ExfileError::NoTasks => {
                push_str(&mut v, "no tasks defined");
            },
            ExfileError::EmptyBody { task, line } => {
                push_str(&mut v, "task ");
                push_quoted(&mut v, task);
                push_str(&mut v, " (line ");
                push_dec(&mut v, *line as u64);
                push_str(&mut v, ") has an empty body");
            },
            ExfileError::LiveReplicas { task } => {
                push_str(&mut v, "task ");
                push_quoted(&mut v, task);
                push_str(&mut v, ": live workspace requires replicas = 1");
            },
            ExfileError::GpusWithoutImage { task } => {
                push_str(&mut v, "task ");
                push_quoted(&mut v, task);
                push_str(&mut v, ": gpus requires an image");
            },
            ExfileError::Duplicate { task } => {
                push_str(&mut v, "task ");
                push_quoted(&mut v, task);
                push_str(&mut v, " defined twice");
            },
            ExfileError::EmptyShell { line } => {
                push_at_line(&mut v, *line);
                push_str(&mut v, "shell needs a command");
            },
            ExfileError::BadNumber { line, value } => {
                push_at_line(&mut v, *line);
                push_str(&mut v, "expected a number, got ");
                push_quoted(&mut v, value);
            },
            ExfileError::BadSize { line, value } => {
                push_at_line(&mut v, *line);
                push_str(&mut v, "expected a value like 64g, got ");
                push_quoted(&mut v, value);
            },
            ExfileError::BadDuration { line, value } => {
                push_at_line(&mut v, *line);
                push_str(&mut v, "expected a value like 12h, got ");
                push_quoted(&mut v, value);
            },
            ExfileError::BadWorkspace { line } => {
                push_at_line(&mut v, *line);
                push_str(&mut v, "workspace must be 'sync' or 'live'");
            },
            ExfileError::UnknownKey { line, key } => {
                push_at_line(&mut v, *line);
                push_str(&mut v, "unknown key ");
                push_quoted(&mut v, key);
                push_str(&mut v, " (UPPERCASE keys define env vars)");
            },
            ExfileError::Cycle { task } => {
                push_str(&mut v, "dependency cycle at ");
                push_quoted(&mut v, task);
            },
            ExfileError::UnknownDep { task, dep } => {
                push_str(&mut v, "task ");
                push_quoted(&mut v, task);
                push_str(&mut v, " depends on unknown task ");
                push_quoted(&mut v, dep);
            },
            ExfileError::NoSuchTask { task } => {
                push_str(&mut v, "no task ");
                push_quoted(&mut v, task);
            },
        }
        assert(v@ =~= exfile_message(self@));
        string_of(v.as_slice())
    }
}

// ---------------------------------------------------------------------------
// Scheduling
// ---------------------------------------------------------------------------

/// The names of the tasks, as a set.
pub open spec fn name_set(tasks: Seq<TaskView>) -> Set<Seq<char>> {
    tasks.map_values(|t: TaskView| t.name).to_set()
}

/// A path of the depth-first walk: distinct names, each a task's.
pub open spec fn path_ok(tasks: Seq<TaskView>, path: Seq<Seq<char>>) -> bool {
    &&& path.no_duplicates()
    &&& forall|i: int| 0 <= i < path.len() ==> name_set(tasks).contains(#[trigger] path[i])
}

pub proof fn lemma_path_len(tasks: Seq<TaskView>, path: Seq<Seq<char>>)
    requires
        path_ok(tasks, path),
    ensures
        path.len() <= tasks.len(),
{
    broadcast use vstd::seq_lib::seq_to_set_is_finite;

    path.unique_seq_to_set();
    tasks.map_values(|t: TaskView| t.name).lemma_cardinality_of_set();
    assert(path.to_set().subset_of(name_set(tasks))) by {
        assert forall|x: Seq<char>| path.to_set().contains(x) implies name_set(tasks).contains(x) by {
            let i = choose|i: int| 0 <= i < path.len() && path[i] == x;
        }
    }
    vstd::set_lib::lemma_len_subset(path.to_set(), name_set(tasks));
}

/// Index of the first task named `name`, looking from index `i` on.
pub open spec fn find_task_from(tasks: Seq<TaskView>, name: Seq<char>, i: int) -> Option<int>
    decreases tasks.len() - i,
{
    if i < 0 || i >= tasks.len() {
        None
    } else if tasks[i].name == name {
        Some(i)
    } else {
        find_task_from(tasks, name, i + 1)
    }
}

/// Index of the first task named `name`.
pub open spec fn find_task(tasks: Seq<TaskView>, name: Seq<char>) -> Option<int> {
    find_task_from(tasks, name, 0)
}

pub proof fn lemma_find_task_from(tasks: Seq<TaskView>, name: Seq<char>, i: int)
    requires
        0 <= i,
    ensures
        find_task_from(tasks, name, i) matches Some(k) ==> i <= k < tasks.len() && tasks[k].name
            == name && forall|j: int| i <= j < k ==> tasks[j].name != name,
        find_task_from(tasks, name, i) is None ==> forall|j: int|
            i <= j < tasks.len() ==> tasks[j].name != name,
    decreases tasks.len() - i,
{
    if i < tasks.len() && tasks[i].name != name {
        lemma_find_task_from(tasks, name, i + 1);
    }
}

/// Whether one of the tasks at the indices `out` is named `name`.
pub open spec fn placed(tasks: Seq<TaskView>, out: Seq<usize>, name: Seq<char>) -> bool {
    exists|j: int| 0 <= j < out.len() && tasks[out[j] as int].name == name
}

/// One step of the depth-first walk of `schedule`: place `name` after its
/// dependencies, with `path` the chain of tasks being placed and `out` the
/// indices placed so far.
pub open spec fn visit(
    tasks: Seq<TaskView>,
    name: Seq<char>,
    path: Seq<Seq<char>>,
    out: Seq<usize>,
) -> Result<Seq<usize>, ExfileErrorView>
    decreases tasks.len() - path.len(), 0int,
    when path_ok(tasks, path)
{
    if placed(tasks, out, name) {
        Ok(out)
    } else if path.contains(name) {
        Err(ExfileErrorView::Cycle { task: name })
    } else {
        match find_task(tasks, name) {
            None => if path.len() == 0 {
                Err(ExfileErrorView::NoSuchTask { task: name })
            } else {
                Err(ExfileErrorView::UnknownDep { task: path.last(), dep: name })
            },
            Some(i) => {
                proof {
                    lemma_find_task_from(tasks, name, 0);
                    assert(path_ok(tasks, path.push(name))) by {
                        assert(tasks.map_values(|t: TaskView| t.name)[i] == name);
                        assert forall|k: int| 0 <= k < path.push(name).len() implies name_set(
                            tasks,
                        ).contains(#[trigger] path.push(name)[k]) by {
                            if k < path.len() {
                                assert(path.push(name)[k] == path[k]);
                            }
                        }
                    }
                    lemma_path_len(tasks, path.push(name));
                }
                match visit_deps(tasks, tasks[i].deps, 0, path.push(name), out) {
                    Err(e) => Err(e),
                    Ok(o) => Ok(o.push(i as usize)),
                }
            },
        }
    }
}

/// The walk over the dependencies `deps[k..]` of the last task on `path`.
pub open spec fn visit_deps(
    tasks: Seq<TaskView>,
    deps: Seq<Seq<char>>,
    k: int,
    path: Seq<Seq<char>>,
    out: Seq<usize>,
) -> Result<Seq<usize>, ExfileErrorView>
    decreases tasks.len() - path.len(), deps.len() - k,
    when path_ok(tasks, path) && 0 <= k
{
    if k >= deps.len() {
        Ok(out)
    } else {
        match visit(tasks, deps[k], path, out) {
            Err(e) => Err(e),
            Ok(o) => visit_deps(tasks, deps, k + 1, path, o),
        }
    }
}

/// The indices of the tasks that `name` needs, each after its own
/// dependencies and `name` last, or why there is no such order.
pub open spec fn schedule_spec(tasks: Seq<TaskView>, name: Seq<char>) -> Result<
    Seq<usize>,
    ExfileErrorView,
> {
    visit(tasks, name, seq![], seq![])
}

/// The values of a list of tasks.
pub open spec fn views(tasks: Seq<Task>) -> Seq<TaskView> {
    tasks.map_values(|t: Task| t@)
}

fn find_task_in(tasks: &[Task], name: &String) -> (r: Option<usize>)
    ensures
        match r {
            Some(k) => find_task(views(tasks@), name@) == Some(k as int),
            None => find_task(views(tasks@), name@) is None,
        },
{
    let ghost tv = views(tasks@);
    let mut i: usize = 0;
    while i < tasks.len()
        invariant
            i <= tasks@.len(),
            tv == views(tasks@),
            find_task(tv, name@) == find_task_from(tv, name@, i as int),
        decreases tasks@.len() - i,
    {
        if tasks[i].name == *name {
            return Some(i);
        }
        i += 1;
    }
    None
}

fn is_placed(tasks: &[Task], out: &Vec<usize>, name: &String) -> (r: bool)
    requires
        forall|j: int| 0 <= j < out@.len() ==> out@[j] < tasks@.len(),
    ensures
        r == placed(views(tasks@), out@, name@),
{
    let mut j: usize = 0;
    while j < out.len()
        invariant
            j <= out@.len(),
            forall|k: int| 0 <= k < out@.len() ==> out@[k] < tasks@.len(),
            forall|k: int| 0 <= k < j ==> views(tasks@)[out@[k] as int].name != name@,
        decreases out@.len() - j,
    {
        if tasks[out[j]].name == *name {
            assert(views(tasks@)[out@[j as int] as int].name == name@);
            return true;
        }
        j += 1;
    }
    false
}

fn path_has(path: &Vec<String>, name: &String) -> (r: bool)
    ensures
        r == path.deep_view().contains(name@),
{
    let mut j: usize = 0;
    while j < path.len()
        invariant
            j <= path@.len(),
            forall|k: int| 0 <= k < j ==> path.deep_view()[k] != name@,
        decreases path@.len() - j,
    {
        if path[j] == *name {
            assert(path.deep_view()[j as int] == name@);
            return true;
        }
        j += 1;
    }
    false
}

fn visit_exec(tasks: &[Task], name: &String, path: &mut Vec<String>, out: &mut Vec<usize>) -> (r:
    Result<(), ExfileError>)
    requires
        path_ok(views(tasks@), old(path).deep_view()),
        forall|j: int| 0 <= j < old(out)@.len() ==> old(out)@[j] < tasks@.len(),
    ensures
        final(path)@ == old(path)@,
        forall|j: int| 0 <= j < final(out)@.len() ==> final(out)@[j] < tasks@.len(),
        match r {
            Ok(()) => visit(views(tasks@), name@, old(path).deep_view(), old(out)@) == Ok::<
                Seq<usize>,
                ExfileErrorView,
            >(final(out)@),
            Err(e) => visit(views(tasks@), name@, old(path).deep_view(), old(out)@) == Err::<
                Seq<usize>,
                ExfileErrorView,
            >(e@),
        },
    decreases tasks@.len() - old(path)@.len(),
{
    let ghost tv = views(tasks@);
    let ghost p0 = path.deep_view();
    let ghost o0 = out@;
    proof {
        lemma_path_len(tv, p0);
    }
    if is_placed(tasks, out, name) {
        return Ok(());
    }
    if path_has(path, name) {
        return Err(ExfileError::Cycle { task: name.clone() });
    }
    let i = match find_task_in(tasks, name) {
        None => {
            if path.len() == 0 {
                return Err(ExfileError::NoSuchTask { task: name.clone() });
            } else {
                let last = path[path.len() - 1].clone();
                return Err(ExfileError::UnknownDep { task: last, dep: name.clone() });
            }
        },
        Some(i) => i,
    };
    proof {
        lemma_find_task_from(tv, name@, 0);
        assert(path_ok(tv, p0.push(name@))) by {
            assert(tv.map_values(|t: TaskView| t.name)[i as int] == name@);
            assert forall|k: int| 0 <= k < p0.push(name@).len() implies name_set(tv).contains(
                #[trigger] p0.push(name@)[k],
            ) by {
                if k < p0.len() {
                    assert(p0.push(name@)[k] == p0[k]);
                }
            }
        }
        lemma_path_len(tv, p0.push(name@));
    }
    assert(visit(tv, name@, p0, o0) == match visit_deps(tv, tv[i as int].deps, 0, p0.push(name@), o0) {
        Err(e) => Err(e),
        Ok(o) => Ok::<Seq<usize>, ExfileErrorView>(o.push(i)),
    });
    let ghost path0 = path@;
    path.push(name.clone());
    assert(path.deep_view() =~= p0.push(name@));
    let deps = &tasks[i].deps;
    assert(deps.deep_view() == tv[i as int].deps);
    let mut k: usize = 0;
    while k < deps.len()
        invariant
            tv == views(tasks@),
            path_ok(tv, p0.push(name@)),
            path.deep_view() == p0.push(name@),
            path@ == path0.push(path@.last()),
            path0 == old(path)@,
            p0 == old(path).deep_view(),
            o0 == old(out)@,
            visit(tv, name@, p0, o0) == match visit_deps(tv, tv[i as int].deps, 0, p0.push(name@), o0) {
                Err(e) => Err(e),
                Ok(o) => Ok::<Seq<usize>, ExfileErrorView>(o.push(i)),
            },
            path@.len() == p0.len() + 1,
            tv.len() == tasks@.len(),
            i < tv.len(),
            p0.push(name@).len() <= tv.len(),
            deps.deep_view() == tv[i as int].deps,
            k <= deps@.len(),
            forall|j: int| 0 <= j < out@.len() ==> out@[j] < tasks@.len(),
            visit_deps(tv, tv[i as int].deps, 0, p0.push(name@), o0) == visit_deps(
                tv,
                tv[i as int].deps,
                k as int,
                p0.push(name@),
                out@,
            ),
        decreases deps@.len() - k,
    {
        let ghost before = out@;
        let res = visit_exec(tasks, &deps[k], path, out);
        assert(deps.deep_view()[k as int] == deps@[k as int]@);
        match res {
            Err(e) => {
                path.pop();
                assert(path@ =~= path0);
                return Err(e);
            },
            Ok(()) => {},
        }
        k += 1;
    }
    path.pop();
    assert(path@ =~= path0);
    out.push(i);
    Ok(())
}

/// The tasks that `name` needs, in an order where each comes after its
/// dependencies, `name` itself last. Fails on a name that is not a task's, on
/// a dependency that is not a task's, and on a dependency cycle.
pub fn schedule<'a>(tasks: &'a [Task], name: &str) -> (r: Result<Vec<&'a Task>, ExfileError>)
    ensures
        match r {
            Ok(v) => schedule_spec(views(tasks@), name@) matches Ok(ix) && v@.len() == ix.len()
                && forall|j: int| 0 <= j < ix.len() ==> ix[j] < tasks@.len() && *v@[j]
                == tasks@[ix[j] as int],
            Err(e) => schedule_spec(views(tasks@), name@) == Err::<Seq<usize>, ExfileErrorView>(
                e@,
            ),
        },
{
    let mut path: Vec<String> = Vec::new();
    let mut out: Vec<usize> = Vec::new();
    let n = string_of_str(name);
    assert(path.deep_view() =~= seq![]);
    assert(out@ =~= seq![]);
    proof {
        assert(path_ok(views(tasks@), seq![]));
    }
    match visit_exec(tasks, &n, &mut path, &mut out) {
        Err(e) => Err(e),
        Ok(()) => {
            let mut v: Vec<&'a Task> = Vec::new();
            let mut j: usize = 0;
            while j < out.len()
                invariant
                    j <= out@.len(),
                    v@.len() == j,
                    forall|q: int| 0 <= q < out@.len() ==> out@[q] < tasks@.len(),
                    forall|q: int| 0 <= q < j ==> *v@[q] == tasks@[out@[q] as int],
                decreases out@.len() - j,
            {
                v.push(&tasks[out[j]]);
                j += 1;
            }
            Ok(v)
        },
    }
}

// ---------------------------------------------------------------------------
// Names, variables and values
// ---------------------------------------------------------------------------

pub open spec fn name_char(c: char) -> bool {
    is_alpha(c) || is_digit(c) || c == '_' || c == '-'
}

/// A task name: a letter, then letters, digits, `_` or `-`; `ps` and
/// `attach` are taken by the client's own commands.
pub open spec fn valid_name(s: Seq<char>) -> bool {
    &&& s.len() > 0
    &&& is_alpha(s[0])
    &&& forall|i: int| 1 <= i < s.len() ==> name_char(#[trigger] s[i])
    &&& s != "ps"@
    &&& s != "attach"@
}

/// An environment variable name: an upper-case letter or `_`, then
/// upper-case letters, digits or `_`.
pub open spec fn env_key(s: Seq<char>) -> bool {
    &&& s.len() > 0
    &&& (is_upper(s[0]) || s[0] == '_')
    &&& forall|i: int| 1 <= i < s.len() ==> is_upper(#[trigger] s[i]) || is_digit(s[i]) || s[i] == '_'
}

pub fn valid_name_in(s: &[char]) -> (r: bool)
    ensures
        r == valid_name(s@),
{
    if s.len() == 0 || !is_ascii_alpha(s[0]) {
        return false;
    }
    let mut i: usize = 1;
    while i < s.len()
        invariant
            1 <= i <= s@.len(),
            forall|k: int| 1 <= k < i ==> name_char(#[trigger] s@[k]),
        decreases s@.len() - i,
    {
        let c = s[i];
        if !(is_ascii_alpha(c) || is_ascii_digit(c) || c == '_' || c == '-') {
            assert(!name_char(s@[i as int]));
            return false;
        }
        i += 1;
    }
    !eq_str(s, "ps") && !eq_str(s, "attach")
}

pub fn env_key_in(s: &[char]) -> (r: bool)
    ensures
        r == env_key(s@),
{
    if s.len() == 0 || !(is_ascii_upper(s[0]) || s[0] == '_') {
        return false;
    }
    let mut i: usize = 1;
    while i < s.len()
        invariant
            1 <= i <= s@.len(),
            forall|k: int| 1 <= k < i ==> is_upper(#[trigger] s@[k]) || is_digit(s@[k]) || s@[k] == '_',
        decreases s@.len() - i,
    {
        let c = s[i];
        if !(is_ascii_upper(c) || is_ascii_digit(c) || c == '_') {
            assert(!(is_upper(s@[i as int]) || is_digit(s@[i as int]) || s@[i as int] == '_'));
            return false;
        }
        i += 1;
    }
    true
}

/// `v` trimmed, without one pair of matching surrounding quotes.
pub open spec fn unquote(v: Seq<char>) -> Seq<char> {
    let t = trim(v);
    if t.len() >= 2 && t[0] == '"' && t.last() == '"' {
        t.subrange(1, t.len() - 1)
    } else if t.len() >= 2 && t[0] == '\'' && t.last() == '\'' {
        t.subrange(1, t.len() - 1)
    } else {
        t
    }
}

pub fn unquote_in(s: &[char], lo: usize, hi: usize) -> (r: Vec<char>)
    requires
        lo <= hi <= s@.len(),
    ensures
        r@ == unquote(s@.subrange(lo as int, hi as int)),
{
    let (a, b) = trim_range(s, lo, hi);
    if b - a >= 2 && ((s[a] == '"' && s[b - 1] == '"') || (s[a] == '\'' && s[b - 1] == '\'')) {
        let ghost t = s@.subrange(a as int, b as int);
        assert(t.subrange(1, t.len() - 1) =~= s@.subrange(a + 1, b - 1));
        copy_range(s, a + 1, b - 1)
    } else {
        copy_range(s, a, b)
    }
}

/// The value of the last variable named `name`.
pub open spec fn lookup_var(vars: Seq<(Seq<char>, Seq<char>)>, name: Seq<char>) -> Option<Seq<char>>
    decreases vars.len(),
{
    if vars.len() == 0 {
        None
    } else if vars.last().0 == name {
        Some(vars.last().1)
    } else {
        lookup_var(vars.drop_last(), name)
    }
}

/// Law of variables: a name stands for the value of its latest binding,
/// whatever was bound before it.
pub proof fn lemma_lookup_latest(
    pre: Seq<(Seq<char>, Seq<char>)>,
    name: Seq<char>,
    v: Seq<char>,
    post: Seq<(Seq<char>, Seq<char>)>,
)
    requires
        forall|j: int| 0 <= j < post.len() ==> (#[trigger] post[j]).0 != name,
    ensures
        lookup_var(pre + seq![(name, v)] + post, name) == Some(v),
    decreases post.len(),
{
    let all = pre + seq![(name, v)] + post;
    if post.len() == 0 {
        assert(all.last() == (name, v));
        assert(all.drop_last() =~= pre);
    } else {
        assert(all.last() == post.last());
        assert(post.last().0 != name);
        assert(all.drop_last() =~= pre + seq![(name, v)] + post.drop_last());
        lemma_lookup_latest(pre, name, v, post.drop_last());
    }
}

/// Law of variables: a name that was never bound stands for nothing.
pub proof fn lemma_lookup_unbound(vars: Seq<(Seq<char>, Seq<char>)>, name: Seq<char>)
    requires
        forall|j: int| 0 <= j < vars.len() ==> (#[trigger] vars[j]).0 != name,
    ensures
        lookup_var(vars, name) is None,
    decreases vars.len(),
{
    if vars.len() > 0 {
        assert(vars.last() == vars[vars.len() - 1]);
        lemma_lookup_unbound(vars.drop_last(), name);
    }
}

fn lookup_var_in(vars: &Vec<(String, String)>, name: &[char]) -> (r: Option<Vec<char>>)
    ensures
        match r {
            Some(v) => lookup_var(vars.deep_view(), name@) == Some(v@),
            None => lookup_var(vars.deep_view(), name@) is None,
        },
{
    let mut j: usize = vars.len();
    assert(vars.deep_view().take(vars@.len() as int) =~= vars.deep_view());
    while j > 0
        invariant
            j <= vars@.len(),
            lookup_var(vars.deep_view(), name@) == lookup_var(vars.deep_view().take(j as int), name@),
        decreases j,
    {
        let k = chars_of(vars[j - 1].0.as_str());
        assert(vars.deep_view().take(j as int).drop_last() =~= vars.deep_view().take(j - 1));
        if eq(k.as_slice(), name) {
            return Some(chars_of(vars[j - 1].1.as_str()));
        }
        j -= 1;
    }
    assert(vars.deep_view().take(0) =~= seq![]);
    None
}

/// `${NAME}` references in `v` replaced by the variables' values.
pub open spec fn expand(v: Seq<char>, vars: Seq<(Seq<char>, Seq<char>)>, n: nat) -> Result<
    Seq<char>,
    ExfileErrorView,
>
    decreases v.len(),
{
    match find(v, seq!['$', '{']) {
        None => Ok(v),
        Some(i) => {
            let tail = v.subrange(i, v.len() as int);
            match find_char(tail, '}') {
                None => Err(ExfileErrorView::UnclosedVar { line: n }),
                Some(e) => {
                    let end = i + e;
                    let name = v.subrange(i + 2, end);
                    match lookup_var(vars, name) {
                        None => Err(ExfileErrorView::UndefinedVar { line: n, name }),
                        Some(val) => {
                            proof {
                                lemma_find_from(v, seq!['$', '{'], 0);
                                lemma_find_char_from(tail, '}', 0);
                            }
                            match expand(v.subrange(end + 1, v.len() as int), vars, n) {
                                Ok(r) => Ok(v.subrange(0, i) + val + r),
                                Err(x) => Err(x),
                            }
                        },
                    }
                },
            }
        },
    }
}

/// Law of `${NAME}`: a value `pre${name}post`, where `pre` holds no `$`,
/// `name` no `}` and `post` no `${`, becomes `pre`, then the value of the
/// latest binding of `name` among `vars`, then `post`.
pub proof fn lemma_expand_latest(
    pre: Seq<char>,
    name: Seq<char>,
    post: Seq<char>,
    vpre: Seq<(Seq<char>, Seq<char>)>,
    val: Seq<char>,
    vpost: Seq<(Seq<char>, Seq<char>)>,
    n: nat,
)
    requires
        forall|j: int| 0 <= j < pre.len() ==> pre[j] != '$',
        forall|j: int| 0 <= j < name.len() ==> name[j] != '}',
        find(post, seq!['$', '{']) is None,
        forall|j: int| 0 <= j < vpost.len() ==> (#[trigger] vpost[j]).0 != name,
    ensures
        expand(pre + seq!['$', '{'] + name + seq!['}'] + post, vpre + seq![(name, val)] + vpost, n)
            == Ok::<Seq<char>, ExfileErrorView>(pre + val + post),
{
    let vars = vpre + seq![(name, val)] + vpost;
    lemma_lookup_latest(vpre, name, val, vpost);
    let v = pre + seq!['$', '{'] + name + seq!['}'] + post;
    let i = pre.len() as int;
    let open = seq!['$', '{'];
    assert(v.subrange(i, i + 2) =~= open);
    assert(occurs_at(v, open, i));
    lemma_find_from(v, open, 0);
    match find(v, open) {
        Some(k) => {
            if k < i {
                assert(v.subrange(k, k + 2)[0] == v[k]);
                assert(v[k] == pre[k]);
            }
            assert(k == i);
        },
        None => {},
    }
    assert(find(v, open) == Some(i));
    let tail = v.subrange(i, v.len() as int);
    let e: int = 2 + name.len() as int;
    lemma_find_char_from(tail, '}', 0);
    assert(tail[e] == '}');
    assert forall|j: int| 0 <= j < e implies tail[j] != '}' by {
        if j >= 2 {
            assert(tail[j] == name[j - 2]);
        }
    }
    match find_char(tail, '}') {
        Some(k) => {
            assert(k == e);
        },
        None => {},
    }
    assert(v.subrange(i + 2, i + e) =~= name);
    assert(v.subrange(i + e + 1, v.len() as int) =~= post);
    assert(v.subrange(0, i) =~= pre);
    assert(expand(post, vars, n) == Ok::<Seq<char>, ExfileErrorView>(post));
}

/// `out` before the text of a successful result.
pub open spec fn after(out: Seq<char>, r: Result<Seq<char>, ExfileErrorView>) -> Result<
    Seq<char>,
    ExfileErrorView,
> {
    match r {
        Ok(x) => Ok(out + x),
        Err(e) => Err(e),
    }
}

fn expand_in(v: &[char], vars: &Vec<(String, String)>, n: usize) -> (r: Result<Vec<char>, ExfileError>)
    ensures
        match r {
            Ok(x) => expand(v@, vars.deep_view(), n as nat) == Ok::<Seq<char>, ExfileErrorView>(x@),
            Err(e) => expand(v@, vars.deep_view(), n as nat) == Err::<Seq<char>, ExfileErrorView>(e@),
        },
{
    let ghost vv = vars.deep_view();
    let mut out: Vec<char> = Vec::new();
    let mut pos: usize = 0;
    let pat = vec!['$', '{'];
    assert(pat@ =~= seq!['$', '{']);
    assert(v@.subrange(0, v@.len() as int) =~= v@);
    assert(out@ + v@ =~= v@);
    loop
        invariant
            pos <= v@.len(),
            pat@ == seq!['$', '{'],
            vv == vars.deep_view(),
            expand(v@, vv, n as nat) == after(
                out@,
                expand(v@.subrange(pos as int, v@.len() as int), vv, n as nat),
            ),
        decreases v@.len() - pos,
    {
        let ghost rest = v@.subrange(pos as int, v@.len() as int);
        match find_in(v, pos, v.len(), pat.as_slice()) {
            None => {
                push_range(&mut out, v, pos, v.len());
                return Ok(out);
            },
            Some(i) => {
                proof {
                    lemma_find_from(rest, seq!['$', '{'], 0);
                    assert(rest.subrange(i - pos, i - pos + 2) =~= seq!['$', '{']);
                    assert(v@[i as int] == rest.subrange(i - pos, i - pos + 2)[0]);
                    assert(v@[i + 1] == rest.subrange(i - pos, i - pos + 2)[1]);
                }
                let ghost tail = rest.subrange(i - pos, rest.len() as int);
                assert(tail =~= v@.subrange(i as int, v@.len() as int));
                match find_char_in(v, i, v.len(), '}') {
                    None => {
                        return Err(ExfileError::UnclosedVar { line: n });
                    },
                    Some(e) => {
                        proof {
                            lemma_find_char_from(tail, '}', 0);
                            assert(tail[0] == v@[i as int]);
                            assert(tail[1] == v@[i + 1]);
                        }
                        let name = copy_range(v, i + 2, e);
                        assert(rest.subrange(i - pos + 2, e - pos) =~= name@);
                        match lookup_var_in(vars, name.as_slice()) {
                            None => {
                                return Err(
                                    ExfileError::UndefinedVar {
                                        line: n,
                                        name: string_of(name.as_slice()),
                                    },
                                );
                            },
                            Some(val) => {
                                let ghost o = out@;
                                push_range(&mut out, v, pos, i);
                                push_range(&mut out, val.as_slice(), 0, val.len());
                                assert(val@.subrange(0, val@.len() as int) =~= val@);
                                assert(rest.subrange(0, i - pos) =~= v@.subrange(pos as int, i as int));
                                assert(rest.subrange(e - pos + 1, rest.len() as int) =~= v@.subrange(
                                    e + 1,
                                    v@.len() as int,
                                ));
                                proof {
                                    let r2 = expand(v@.subrange(e + 1, v@.len() as int), vv, n as nat);
                                    match r2 {
                                        Ok(x) => {
                                            assert(o + (v@.subrange(pos as int, i as int) + val@ + x)
                                                =~= out@ + x);
                                        },
                                        Err(_) => {},
                                    }
                                }
                                pos = e + 1;
                            },
                        }
                    },
                }
            },
        }
    }
}

/// The multiplier of a size unit letter.
pub open spec fn size_unit(c: char) -> Option<u64> {
    if c == 'k' {
        Some(1024u64)
    } else if c == 'm' {
        Some(1048576u64)
    } else if c == 'g' {
        Some(1073741824u64)
    } else if c == 't' {
        Some(1099511627776u64)
    } else {
        None
    }
}

/// The multiplier, in seconds, of a duration unit letter.
pub open spec fn duration_unit(c: char) -> Option<u64> {
    if c == 's' {
        Some(1u64)
    } else if c == 'm' {
        Some(60u64)
    } else if c == 'h' {
        Some(3600u64)
    } else if c == 'd' {
        Some(86400u64)
    } else {
        None
    }
}

pub open spec fn unit_of(c: char, duration: bool) -> Option<u64> {
    if duration {
        duration_unit(c)
    } else {
        size_unit(c)
    }
}

/// A size (`k`, `m`, `g`, `t`: powers of 1024) or a duration (`s`, `m`,
/// `h`, `d`) in the base unit: the number times the unit's multiplier, or
/// nothing when the digits do not form a number or the product does not fit
/// in 64 bits.
pub open spec fn scaled(v: Seq<char>, duration: bool) -> Option<u64> {
    let s = to_lower(trim(v));
    let has_unit = s.len() > 0 && unit_of(s.last(), duration) is Some;
    let digits = if has_unit {
        s.drop_last()
    } else {
        s
    };
    let mult: nat = if has_unit {
        unit_of(s.last(), duration)->0 as nat
    } else {
        1
    };
    match parse_uint(digits, 0xffff_ffff_ffff_ffff) {
        Some(b) => if b * mult <= 0xffff_ffff_ffff_ffff {
            Some((b * mult) as u64)
        } else {
            None
        },
        None => None,
    }
}

fn unit_in(c: char, duration: bool) -> (r: Option<u64>)
    ensures
        r == unit_of(c, duration),
{
    if duration {
        if c == 's' {
            Some(1)
        } else if c == 'm' {
            Some(60)
        } else if c == 'h' {
            Some(3600)
        } else if c == 'd' {
            Some(86400)
        } else {
            None
        }
    } else {
        if c == 'k' {
            Some(1024)
        } else if c == 'm' {
            Some(1048576)
        } else if c == 'g' {
            Some(1073741824)
        } else if c == 't' {
            Some(1099511627776)
        } else {
            None
        }
    }
}

/// A size or a duration in its base unit, as `scaled` says.
pub fn scaled_in(v: &[char], duration: bool) -> (r: Option<u64>)
    ensures
        r == scaled(v@, duration),
{
    let t = trimmed(v);
    let s = lowercased(t.as_slice());
    let mut mult: u64 = 1;
    let mut end = s.len();
    if s.len() > 0 {
        match unit_in(s[s.len() - 1], duration) {
            Some(m) => {
                mult = m;
                end = s.len() - 1;
            },
            None => {},
        }
    }
    let digits = copy_range(s.as_slice(), 0, end);
    assert(end < s@.len() ==> digits@ =~= s@.drop_last());
    assert(end == s@.len() ==> digits@ =~= s@);
    match parse_uint_in(digits.as_slice(), 0xffff_ffff_ffff_ffff) {
        Some(b) => b.checked_mul(mult),
        None => None,
    }
}

/// `x` as a `u64`, or nothing when it does not fit.
pub open spec fn fit_u64(x: nat) -> Option<u64> {
    if x <= 0xffff_ffff_ffff_ffff {
        Some(x as u64)
    } else {
        None
    }
}

/// A text with no whitespace at either end is its own trimmed form.
pub proof fn lemma_trim_plain(s: Seq<char>)
    requires
        s.len() > 0,
        !is_ws(s[0]),
        !is_ws(s.last()),
    ensures
        trim(s) == s,
{
    assert(trim_start(s) == s);
    assert(trim_end(s) == s);
}

/// Digits followed by one lower-case letter, trimmed and lower-cased, are
/// the same text.
proof fn lemma_number_with_unit(ds: Seq<char>, c: char)
    requires
        ds.len() > 0,
        all_digits(ds),
        0x61 <= (c as u32) <= 0x7a,
    ensures
        to_lower(trim(ds.push(c))) == ds.push(c),
        ds.push(c).drop_last() == ds,
        ds.push(c).last() == c,
{
    let s = ds.push(c);
    assert(is_digit(ds[0]));
    assert(s[0] == ds[0]);
    lemma_trim_plain(s);
    assert forall|i: int| 0 <= i < s.len() implies !is_upper(#[trigger] s[i]) by {
        if i < ds.len() {
            assert(is_digit(ds[i]));
        }
    }
    assert(to_lower(s) =~= s);
    assert(s.drop_last() =~= ds);
}

/// Law of sizes: a number followed by `k`, `m`, `g` or `t` is that number
/// of KiB, MiB, GiB or TiB, each unit 1024 times the one before; the
/// result is refused when it does not fit in 64 bits.
pub proof fn lemma_size_units(ds: Seq<char>)
    requires
        ds.len() > 0,
        all_digits(ds),
    ensures
        scaled(ds.push('k'), false) == fit_u64(dec_val(ds) * 1024),
        scaled(ds.push('m'), false) == fit_u64(dec_val(ds) * (1024 * 1024)),
        scaled(ds.push('g'), false) == fit_u64(dec_val(ds) * (1024 * 1024 * 1024)),
        scaled(ds.push('t'), false) == fit_u64(dec_val(ds) * (1024 * 1024 * 1024 * 1024)),
{
    lemma_number_with_unit(ds, 'k');
    lemma_number_with_unit(ds, 'm');
    lemma_number_with_unit(ds, 'g');
    lemma_number_with_unit(ds, 't');
    assert(dec_val(ds) * 1024 >= dec_val(ds)) by (nonlinear_arith);
    assert(dec_val(ds) * (1024 * 1024) >= dec_val(ds)) by (nonlinear_arith);
    assert(dec_val(ds) * (1024 * 1024 * 1024) >= dec_val(ds)) by (nonlinear_arith);
    assert(dec_val(ds) * (1024 * 1024 * 1024 * 1024) >= dec_val(ds)) by (nonlinear_arith);
}

/// Law of durations: a number followed by `s`, `m`, `h` or `d` is that many
/// seconds, minutes (60 s), hours (60 min) or days (24 h); the result is
/// refused when it does not fit in 64 bits.
pub proof fn lemma_duration_units(ds: Seq<char>)
    requires
        ds.len() > 0,
        all_digits(ds),
    ensures
        scaled(ds.push('s'), true) == fit_u64(dec_val(ds)),
        scaled(ds.push('m'), true) == fit_u64(dec_val(ds) * 60),
        scaled(ds.push('h'), true) == fit_u64(dec_val(ds) * (60 * 60)),
        scaled(ds.push('d'), true) == fit_u64(dec_val(ds) * (24 * 60 * 60)),
{
    lemma_number_with_unit(ds, 's');
    assert(unit_of('s', true) == Some(1u64));
    assert(dec_val(ds) * 1 == dec_val(ds));
    lemma_number_with_unit(ds, 'm');
    lemma_number_with_unit(ds, 'h');
    lemma_number_with_unit(ds, 'd');
    assert(dec_val(ds) * 60 >= dec_val(ds)) by (nonlinear_arith);
    assert(dec_val(ds) * (60 * 60) >= dec_val(ds)) by (nonlinear_arith);
    assert(dec_val(ds) * (24 * 60 * 60) >= dec_val(ds)) by (nonlinear_arith);
}

/// Law of plain numbers: digits without a unit are the value itself, for
/// sizes (bytes) and durations (seconds) alike.
pub proof fn lemma_no_unit(ds: Seq<char>, duration: bool)
    requires
        ds.len() > 0,
        all_digits(ds),
    ensures
        scaled(ds, duration) == fit_u64(dec_val(ds)),
{
    assert(is_digit(ds[0]));
    assert(is_digit(ds.last()));
    lemma_trim_plain(ds);
    assert forall|i: int| 0 <= i < ds.len() implies !is_upper(#[trigger] ds[i]) by {
        assert(is_digit(ds[i]));
    }
    assert(to_lower(ds) =~= ds);
}

/// A number (`u32`) value of an attribute.
pub fn number_in(v: &[char]) -> (r: Option<u32>)
    ensures
        match r {
            Some(x) => parse_uint(v@, 0xffff_ffff) == Some(x as nat),
            None => parse_uint(v@, 0xffff_ffff) is None,
        },
{
    match parse_uint_in(v, 0xffff_ffff) {
        Some(x) => Some(x as u32),
        None => None,
    }
}

/// `s` without any number of leading `./`.
pub open spec fn strip_dot_slash(s: Seq<char>) -> Seq<char>
    decreases s.len(),
{
    if s.len() >= 2 && s[0] == '.' && s[1] == '/' {
        strip_dot_slash(s.subrange(2, s.len() as int))
    } else {
        s
    }
}

/// `s` without leading `/`.
pub open spec fn trim_slash_start(s: Seq<char>) -> Seq<char>
    decreases s.len(),
{
    if s.len() > 0 && s[0] == '/' {
        trim_slash_start(s.drop_first())
    } else {
        s
    }
}

/// `s` without trailing `/`.
pub open spec fn trim_slash_end(s: Seq<char>) -> Seq<char>
    decreases s.len(),
{
    if s.len() > 0 && s.last() == '/' {
        trim_slash_end(s.drop_last())
    } else {
        s
    }
}

/// An output path as written in the exfile, made relative to the workspace.
pub open spec fn clean_output(s: Seq<char>) -> Seq<char> {
    trim_slash_end(trim_slash_start(strip_dot_slash(s)))
}

/// The cleaned output paths, those that clean to nothing left out.
pub open spec fn clean_outputs(ws: Seq<Seq<char>>) -> Seq<Seq<char>>
    decreases ws.len(),
{
    if ws.len() == 0 {
        seq![]
    } else if clean_output(ws.last()).len() > 0 {
        clean_outputs(ws.drop_last()).push(clean_output(ws.last()))
    } else {
        clean_outputs(ws.drop_last())
    }
}

fn clean_output_in(s: &[char], lo: usize, hi: usize) -> (r: Vec<char>)
    requires
        lo <= hi <= s@.len(),
    ensures
        r@ == clean_output(s@.subrange(lo as int, hi as int)),
{
    let mut a: usize = lo;
    while hi - a >= 2 && s[a] == '.' && s[a + 1] == '/'
        invariant
            lo <= a <= hi <= s@.len(),
            strip_dot_slash(s@.subrange(lo as int, hi as int)) == strip_dot_slash(
                s@.subrange(a as int, hi as int),
            ),
        decreases hi - a,
    {
        assert(s@.subrange(a as int, hi as int).subrange(2, hi - a) =~= s@.subrange(a + 2, hi as int));
        a += 2;
    }
    while a < hi && s[a] == '/'
        invariant
            lo <= a <= hi <= s@.len(),
            trim_slash_start(strip_dot_slash(s@.subrange(lo as int, hi as int))) == trim_slash_start(
                s@.subrange(a as int, hi as int),
            ),
        decreases hi - a,
    {
        assert(s@.subrange(a as int, hi as int).drop_first() =~= s@.subrange(a + 1, hi as int));
        a += 1;
    }
    let mut b: usize = hi;
    while b > a && s[b - 1] == '/'
        invariant
            lo <= a <= b <= hi <= s@.len(),
            clean_output(s@.subrange(lo as int, hi as int)) == trim_slash_end(
                s@.subrange(a as int, b as int),
            ),
        decreases b,
    {
        assert(s@.subrange(a as int, b as int).drop_last() =~= s@.subrange(a as int, b - 1));
        b -= 1;
    }
    copy_range(s, a, b)
}

/// The output paths of an `outputs` value.
fn outputs_in(v: &[char]) -> (r: Vec<String>)
    ensures
        r.deep_view() == clean_outputs(words(v@)),
{
    let ws = words_in(v, 0, v.len());
    assert(v@.subrange(0, v@.len() as int) =~= v@);
    let ghost w = words(v@);
    let mut r: Vec<String> = Vec::new();
    let mut i: usize = 0;
    while i < ws.len()
        invariant
            i <= ws@.len(),
            w == words(v@),
            ws@.len() == w.len(),
            forall|k: int|
                0 <= k < ws@.len() ==> (#[trigger] ws@[k]).0 <= ws@[k].1 <= v@.len() && v@.subrange(
                    ws@[k].0 as int,
                    ws@[k].1 as int,
                ) == w[k],
            r.deep_view() == clean_outputs(w.take(i as int)),
        decreases ws@.len() - i,
    {
        let (a, b) = ws[i];
        let c = clean_output_in(v, a, b);
        assert(w.take(i + 1).drop_last() =~= w.take(i as int));
        assert(w.take(i + 1).last() == w[i as int]);
        if c.len() > 0 {
            let ghost before = r.deep_view();
            r.push(string_of(c.as_slice()));
            assert(r.deep_view() =~= before.push(c@));
        }
        i += 1;
    }
    assert(w.take(w.len() as int) =~= w);
    r
}

/// The words of `v` as strings.
fn words_of(v: &[char]) -> (r: Vec<String>)
    ensures
        r.deep_view() == words(v@),
{
    let ws = words_in(v, 0, v.len());
    assert(v@.subrange(0, v@.len() as int) =~= v@);
    let ghost w = words(v@);
    let mut r: Vec<String> = Vec::new();
    let mut i: usize = 0;
    while i < ws.len()
        invariant
            i <= ws@.len(),
            w == words(v@),
            ws@.len() == w.len(),
            forall|k: int|
                0 <= k < ws@.len() ==> (#[trigger] ws@[k]).0 <= ws@[k].1 <= v@.len() && v@.subrange(
                    ws@[k].0 as int,
                    ws@[k].1 as int,
                ) == w[k],
            r.deep_view() == w.take(i as int),
        decreases ws@.len() - i,
    {
        let (a, b) = ws[i];
        let c = copy_range(v, a, b);
        let ghost before = r.deep_view();
        r.push(string_of(c.as_slice()));
        assert(c@ == w[i as int]);
        assert(r.deep_view() =~= before.push(c@));
        assert(r.deep_view() =~= w.take(i + 1));
        i += 1;
    }
    assert(w.take(w.len() as int) =~= w);
    r
}

/// `t` with the attribute `k` set to `v` (read on line `n`).
pub open spec fn set_attr(t: TaskView, k: Seq<char>, v: Seq<char>, n: nat) -> Result<
    TaskView,
    ExfileErrorView,
> {
    if k == "servers"@ {
        Ok(TaskView { servers: words(v), ..t })
    } else if k == "shell"@ {
        if trim(v).len() == 0 {
            Err(ExfileErrorView::EmptyShell { line: n })
        } else {
            Ok(TaskView { shell: v, ..t })
        }
    } else if k == "image"@ {
        Ok(TaskView { image: Some(v), ..t })
    } else if k == "cpus"@ {
        match parse_uint(v, 0xffff_ffff) {
            Some(x) => Ok(TaskView { cpus: Some(x as u32), ..t }),
            None => Err(ExfileErrorView::BadNumber { line: n, value: v }),
        }
    } else if k == "mem"@ {
        match scaled(v, false) {
            Some(x) => Ok(TaskView { mem_bytes: Some(x), ..t }),
            None => Err(ExfileErrorView::BadSize { line: n, value: v }),
        }
    } else if k == "gpus"@ {
        match parse_uint(v, 0xffff_ffff) {
            Some(x) => Ok(TaskView { gpus: x as u32, ..t }),
            None => Err(ExfileErrorView::BadNumber { line: n, value: v }),
        }
    } else if k == "disk"@ {
        match scaled(v, false) {
            Some(x) => Ok(TaskView { disk_bytes: Some(x), ..t }),
            None => Err(ExfileErrorView::BadSize { line: n, value: v }),
        }
    } else if k == "time"@ {
        match scaled(v, true) {
            Some(x) => Ok(TaskView { time_secs: Some(x), ..t }),
            None => Err(ExfileErrorView::BadDuration { line: n, value: v }),
        }
    } else if k == "replicas"@ {
        match parse_uint(v, 0xffff_ffff) {
            Some(x) => Ok(TaskView { replicas: if x >= 1 { x as u32 } else { 1 }, ..t }),
            None => Err(ExfileErrorView::BadNumber { line: n, value: v }),
        }
    } else if k == "workspace"@ {
        if v == "live"@ {
            Ok(TaskView { live: true, ..t })
        } else if v == "sync"@ {
            Ok(TaskView { live: false, ..t })
        } else {
            Err(ExfileErrorView::BadWorkspace { line: n })
        }
    } else if k == "outputs"@ {
        Ok(TaskView { outputs: clean_outputs(words(v)), ..t })
    } else {
        Err(ExfileErrorView::UnknownKey { line: n, key: k })
    }
}

/// Sets the attribute `k` of `t` to `v`, as `set_attr` says.
fn set_in(t: &mut Task, k: &[char], v: &[char], n: usize) -> (r: Result<(), ExfileError>)
    ensures
        match r {
            Ok(()) => set_attr(old(t)@, k@, v@, n as nat) == Ok::<TaskView, ExfileErrorView>(
                final(t)@,
            ),
            Err(e) => set_attr(old(t)@, k@, v@, n as nat) == Err::<TaskView, ExfileErrorView>(e@),
        },
{
    let bad_number = ExfileError::BadNumber { line: n, value: string_of(v) };
    let bad_size = ExfileError::BadSize { line: n, value: string_of(v) };
    if eq_str(k, "servers") {
        t.servers = words_of(v);
    } else if eq_str(k, "shell") {
        let (a, b) = trim_range(v, 0, v.len());
        assert(v@.subrange(0, v@.len() as int) =~= v@);
        if a == b {
            return Err(ExfileError::EmptyShell { line: n });
        }
        t.shell = string_of(v);
    } else if eq_str(k, "image") {
        t.image = Some(string_of(v));
    } else if eq_str(k, "cpus") {
        match number_in(v) {
            Some(x) => t.cpus = Some(x),
            None => return Err(bad_number),
        }
    } else if eq_str(k, "mem") {
        match scaled_in(v, false) {
            Some(x) => t.mem_bytes = Some(x),
            None => return Err(bad_size),
        }
    } else if eq_str(k, "gpus") {
        match number_in(v) {
            Some(x) => t.gpus = x,
            None => return Err(bad_number),
        }
    } else if eq_str(k, "disk") {
        match scaled_in(v, false) {
            Some(x) => t.disk_bytes = Some(x),
            None => return Err(bad_size),
        }
    } else if eq_str(k, "time") {
        match scaled_in(v, true) {
            Some(x) => t.time_secs = Some(x),
            None => return Err(ExfileError::BadDuration { line: n, value: string_of(v) }),
        }
    } else if eq_str(k, "replicas") {
        match number_in(v) {
            Some(x) => t.replicas = if x >= 1 {
                x
            } else {
                1
            },
            None => return Err(bad_number),
        }
    } else if eq_str(k, "workspace") {
        if eq_str(v, "live") {
            t.live = true;
        } else if eq_str(v, "sync") {
            t.live = false;
        } else {
            return Err(ExfileError::BadWorkspace { line: n });
        }
    } else if eq_str(k, "outputs") {
        t.outputs = outputs_in(v);
    } else {
        return Err(ExfileError::UnknownKey { line: n, key: string_of(k) });
    }
    Ok(())
}

// ---------------------------------------------------------------------------
// Task bodies
// ---------------------------------------------------------------------------

/// The number of bytes of `c` in UTF-8.
pub open spec fn utf8_len(c: char) -> nat {
    if (c as u32) < 0x80 {
        1
    } else if (c as u32) < 0x800 {
        2
    } else if (c as u32) < 0x10000 {
        3
    } else {
        4
    }
}

/// The number of bytes of `s` in UTF-8.
pub open spec fn byte_len(s: Seq<char>) -> nat
    decreases s.len(),
{
    if s.len() == 0 {
        0
    } else {
        byte_len(s.drop_last()) + utf8_len(s.last())
    }
}

pub proof fn lemma_byte_len_bound(s: Seq<char>)
    ensures
        byte_len(s) <= 4 * s.len(),
    decreases s.len(),
{
    if s.len() > 0 {
        lemma_byte_len_bound(s.drop_last());
    }
}

/// The number of bytes of the leading whitespace of `l`.
pub open spec fn lead_bytes(l: Seq<char>) -> nat {
    byte_len(l.subrange(0, l.len() - trim_start(l).len()))
}

/// The least `lead_bytes` of the lines that are not blank, if any.
pub open spec fn min_lead(lines: Seq<Seq<char>>) -> Option<nat>
    decreases lines.len(),
{
    if lines.len() == 0 {
        None
    } else {
        let rest = min_lead(lines.drop_last());
        let l = lines.last();
        if trim(l).len() == 0 {
            rest
        } else {
            match rest {
                None => Some(lead_bytes(l)),
                Some(m) => Some(
                    if lead_bytes(l) < m {
                        lead_bytes(l)
                    } else {
                        m
                    },
                ),
            }
        }
    }
}

/// `l` without its first `p` bytes: empty when `l` is shorter, `None` when
/// byte `p` falls inside a character (where slicing a `str` panics).
pub open spec fn cut_line(l: Seq<char>, p: nat) -> Option<Seq<char>>
    decreases l.len(),
{
    if p == 0 {
        Some(l)
    } else if l.len() == 0 {
        Some(seq![])
    } else if utf8_len(l[0]) > p {
        None
    } else {
        cut_line(l.drop_first(), (p - utf8_len(l[0])) as nat)
    }
}

/// Every line cut by `p` bytes, `None` if one of them cannot be.
pub open spec fn cut_lines(lines: Seq<Seq<char>>, p: nat) -> Option<Seq<Seq<char>>>
    decreases lines.len(),
{
    if lines.len() == 0 {
        Some(seq![])
    } else {
        match (cut_lines(lines.drop_last(), p), cut_line(lines.last(), p)) {
            (Some(cs), Some(c)) => Some(cs.push(c)),
            _ => None,
        }
    }
}

/// The lines joined with line feeds between them.
pub open spec fn join_lines(ls: Seq<Seq<char>>) -> Seq<char>
    decreases ls.len(),
{
    if ls.len() == 0 {
        seq![]
    } else if ls.len() == 1 {
        ls[0]
    } else {
        join_lines(ls.drop_last()) + seq!['\n'] + ls.last()
    }
}

/// A task body as its script: the lines without the indentation common to
/// the lines that are not blank (counted in bytes), joined, trailing
/// whitespace removed. `None` where that indentation ends inside a character.
pub open spec fn dedent(lines: Seq<Seq<char>>) -> Option<Seq<char>> {
    let p = match min_lead(lines) {
        Some(m) => m,
        None => 0,
    };
    match cut_lines(lines, p) {
        None => None,
        Some(cs) => Some(trim_end(join_lines(cs))),
    }
}

/// Whether `p` bytes is the least indentation of the lines of `lines` that
/// are not blank: no such line is indented less, and one is indented
/// exactly that much; zero when every line is blank.
pub open spec fn least_indent(lines: Seq<Seq<char>>, p: nat) -> bool {
    &&& forall|i: int|
        0 <= i < lines.len() && trim(#[trigger] lines[i]).len() > 0 ==> p <= lead_bytes(lines[i])
    &&& (exists|i: int|
        0 <= i < lines.len() && trim(#[trigger] lines[i]).len() > 0 && lead_bytes(lines[i]) == p)
        || (p == 0 && forall|i: int| 0 <= i < lines.len() ==> trim(#[trigger] lines[i]).len() == 0)
}

proof fn lemma_min_lead(lines: Seq<Seq<char>>)
    ensures
        match min_lead(lines) {
            Some(m) => least_indent(lines, m) && exists|i: int|
                0 <= i < lines.len() && trim(#[trigger] lines[i]).len() > 0,
            None => least_indent(lines, 0) && forall|i: int|
                0 <= i < lines.len() ==> trim(#[trigger] lines[i]).len() == 0,
        },
    decreases lines.len(),
{
    if lines.len() > 0 {
        let d = lines.drop_last();
        let l = lines.last();
        let n = lines.len() - 1;
        lemma_min_lead(d);
        assert forall|i: int| 0 <= i < d.len() implies d[i] == lines[i] by {}
        assert(lines[n] == l);
        match min_lead(d) {
            None => {
                if trim(l).len() > 0 {
                    assert(trim(lines[n]).len() > 0 && lead_bytes(lines[n]) == lead_bytes(l));
                    assert forall|i: int| 0 <= i < lines.len() && trim(#[trigger] lines[i]).len()
                        > 0 implies lead_bytes(l) <= lead_bytes(lines[i]) by {
                        if i < n {
                            assert(trim(d[i]).len() == 0);
                        }
                    }
                } else {
                    assert forall|i: int| 0 <= i < lines.len() implies trim(#[trigger] lines[i]).len()
                        == 0 by {
                        if i < n {
                            assert(trim(d[i]).len() == 0);
                        }
                    }
                }
            },
            Some(m) => {
                let j = choose|i: int| 0 <= i < d.len() && trim(#[trigger] d[i]).len() > 0 && lead_bytes(d[i]) == m;
                assert(trim(lines[j]).len() > 0);
                let r = min_lead(lines)->0;
                assert forall|i: int| 0 <= i < lines.len() && trim(#[trigger] lines[i]).len()
                    > 0 implies r <= lead_bytes(lines[i]) by {
                    if i < n {
                        assert(trim(d[i]).len() > 0);
                        assert(m <= lead_bytes(d[i]));
                    }
                }
                if trim(l).len() > 0 && lead_bytes(l) < m {
                    assert(trim(lines[n]).len() > 0 && lead_bytes(lines[n]) == r);
                } else {
                    assert(trim(lines[j]).len() > 0 && lead_bytes(lines[j]) == r);
                }
            },
        }
    }
}

/// Law of task bodies: the script is the body with its least indentation
/// (over the lines that are not blank, in bytes) cut from every line, the
/// lines joined by line feeds and trailing whitespace removed; refused
/// only where that cut would end inside a character.
pub proof fn lemma_dedent_least(lines: Seq<Seq<char>>)
    ensures
        exists|p: nat|
            least_indent(lines, p) && dedent(lines) == match cut_lines(lines, p) {
                None => None,
                Some(cs) => Some(trim_end(join_lines(cs))),
            },
{
    lemma_min_lead(lines);
    let p: nat = match min_lead(lines) {
        Some(m) => m,
        None => 0,
    };
    assert(least_indent(lines, p));
}

/// `byte_len` counted from the front.
pub proof fn lemma_byte_len_first(s: Seq<char>)
    requires
        s.len() > 0,
    ensures
        byte_len(s) == utf8_len(s[0]) + byte_len(s.drop_first()),
    decreases s.len(),
{
    if s.len() > 1 {
        lemma_byte_len_first(s.drop_last());
        assert(s.drop_last().drop_first() =~= s.drop_first().drop_last());
        assert(s.drop_first().last() == s.last());
        assert(s.drop_last()[0] == s[0]);
        assert(byte_len(s.drop_first()) == byte_len(s.drop_first().drop_last()) + utf8_len(
            s.drop_first().last(),
        ));
    } else {
        assert(s.drop_first().len() == 0);
        assert(s.drop_last().len() == 0);
        assert(s.last() == s[0]);
        assert(byte_len(s.drop_first()) == 0);
        assert(byte_len(s.drop_last()) == 0);
    }
}

/// Law of task bodies: cutting no more than a line's indentation removes
/// only whitespace; what is left ends the line and starts with its
/// indentation's rest, so its first character that is not whitespace stays.
pub proof fn lemma_cut_keeps_text(l: Seq<char>, p: nat)
    requires
        p <= lead_bytes(l),
    ensures
        cut_line(l, p) matches Some(c) ==> c.len() <= l.len() && c == l.subrange(
            l.len() - c.len(),
            l.len() as int,
        ) && trim_start(c) == trim_start(l),
    decreases l.len(),
{
    lemma_trim_start(l);
    if p == 0 {
        assert(l.subrange(0, l.len() as int) =~= l);
    } else if l.len() == 0 {
        assert(l.subrange(0, 0) =~= seq![]);
        assert(byte_len(seq![]) == 0);
    } else {
        let k = l.len() - trim_start(l).len();
        let w = l.subrange(0, k);
        if k == 0 {
            assert(w =~= seq![]);
            assert(byte_len(w) == 0);
        } else {
            assert(is_ws(l[0]));
            let t = l.drop_first();
            assert(trim_start(l) == trim_start(t));
            lemma_trim_start(t);
            lemma_byte_len_first(w);
            assert(w.drop_first() =~= t.subrange(0, t.len() - trim_start(t).len()));
            assert(w[0] == l[0]);
            if utf8_len(l[0]) <= p {
                lemma_cut_keeps_text(t, (p - utf8_len(l[0])) as nat);
                match cut_line(t, (p - utf8_len(l[0])) as nat) {
                    Some(c) => {
                        assert(t.subrange(t.len() - c.len(), t.len() as int) =~= l.subrange(
                            l.len() - c.len(),
                            l.len() as int,
                        ));
                    },
                    None => {},
                }
            }
        }
    }
}

pub proof fn lemma_blank(l: Seq<char>)
    ensures
        (trim(l).len() == 0) == (trim_start(l).len() == 0),
{
    lemma_trim_start(l);
    let t = trim_start(l);
    lemma_trim_end(t);
    if t.len() > 0 && trim_end(t).len() == 0 {
        assert(is_ws(t[0]));
    }
}

fn bytes_of(s: &[char], lo: usize, hi: usize) -> (r: u128)
    requires
        lo <= hi <= s@.len(),
    ensures
        r == byte_len(s@.subrange(lo as int, hi as int)),
{
    let mut acc: u128 = 0;
    let mut k: usize = lo;
    while k < hi
        invariant
            lo <= k <= hi <= s@.len(),
            acc == byte_len(s@.subrange(lo as int, k as int)),
            acc <= 4 * (k - lo),
        decreases hi - k,
    {
        let c = s[k];
        let u = c as u32;
        let w: u128 = if u < 0x80 {
            1
        } else if u < 0x800 {
            2
        } else if u < 0x10000 {
            3
        } else {
            4
        };
        assert(s@.subrange(lo as int, k + 1).drop_last() =~= s@.subrange(lo as int, k as int));
        acc = acc + w;
        k += 1;
    }
    acc
}

fn cut_in(l: &[char], p: u128) -> (r: Option<Vec<char>>)
    ensures
        match r {
            Some(c) => cut_line(l@, p as nat) == Some(c@),
            None => cut_line(l@, p as nat) is None,
        },
{
    let mut acc: u128 = 0;
    let mut k: usize = 0;
    assert(l@.subrange(0, l@.len() as int) =~= l@);
    while acc < p && k < l.len()
        invariant
            k <= l@.len(),
            acc <= p,
            cut_line(l@, p as nat) == cut_line(l@.subrange(k as int, l@.len() as int), (p - acc) as nat),
        decreases l@.len() - k,
    {
        let u = l[k] as u32;
        let w: u128 = if u < 0x80 {
            1
        } else if u < 0x800 {
            2
        } else if u < 0x10000 {
            3
        } else {
            4
        };
        assert(l@.subrange(k as int, l@.len() as int).drop_first() =~= l@.subrange(k + 1, l@.len() as int));
        if w > p - acc {
            return None;
        }
        acc = acc + w;
        k += 1;
    }
    if acc < p {
        assert(l@.subrange(k as int, l@.len() as int) =~= seq![]);
        Some(Vec::new())
    } else {
        Some(copy_range(l, k, l.len()))
    }
}

/// The script of a task body, as `dedent` says.
pub fn dedent_in(lines: &Vec<Vec<char>>) -> (r: Option<Vec<char>>)
    ensures
        match r {
            Some(s) => dedent(lines.deep_view()) == Some(s@),
            None => dedent(lines.deep_view()) is None,
        },
{
    let ghost ls = lines.deep_view();
    let mut m: Option<u128> = None;
    let mut i: usize = 0;
    while i < lines.len()
        invariant
            i <= lines@.len(),
            ls == lines.deep_view(),
            match m {
                Some(x) => min_lead(ls.take(i as int)) == Some(x as nat),
                None => min_lead(ls.take(i as int)) is None,
            },
        decreases lines@.len() - i,
    {
        let l = lines[i].as_slice();
        assert(l@ == ls[i as int]);
        assert(ls.take(i + 1).drop_last() =~= ls.take(i as int));
        assert(ls.take(i + 1).last() == ls[i as int]);
        let a = skip_ws(l, 0, l.len());
        assert(l@.subrange(0, l@.len() as int) =~= l@);
        proof {
            lemma_blank(l@);
            lemma_trim_start(l@);
        }
        if a < l.len() {
            let lb = bytes_of(l, 0, a);
            m = match m {
                None => Some(lb),
                Some(x) => Some(
                    if lb < x {
                        lb
                    } else {
                        x
                    },
                ),
            };
        }
        i += 1;
    }
    assert(ls.take(ls.len() as int) =~= ls);
    let p: u128 = match m {
        Some(x) => x,
        None => 0,
    };
    let mut cuts: Vec<Vec<char>> = Vec::new();
    let mut j: usize = 0;
    while j < lines.len()
        invariant
            j <= lines@.len(),
            ls == lines.deep_view(),
            p as nat == (match min_lead(ls) {
                Some(x) => x,
                None => 0,
            }),
            cut_lines(ls.take(j as int), p as nat) == Some(cuts.deep_view()),
        decreases lines@.len() - j,
    {
        let l = lines[j].as_slice();
        assert(ls.take(j + 1).drop_last() =~= ls.take(j as int));
        assert(ls.take(j + 1).last() == l@);
        match cut_in(l, p) {
            None => {
                proof {
                    lemma_cut_lines_prefix(ls, j as int + 1, p as nat);
                }
                return None;
            },
            Some(c) => {
                let ghost before = cuts.deep_view();
                assert(c.deep_view() =~= c@);
                cuts.push(c);
                assert(cuts.deep_view() =~~= before.push(c@));
            },
        }
        j += 1;
    }
    assert(ls.take(ls.len() as int) =~= ls);
    let mut out: Vec<char> = Vec::new();
    let mut q: usize = 0;
    let ghost cs = cuts.deep_view();
    while q < cuts.len()
        invariant
            q <= cuts@.len(),
            cs == cuts.deep_view(),
            out@ == join_lines(cs.take(q as int)),
        decreases cuts@.len() - q,
    {
        assert(cs.take(q + 1).drop_last() =~= cs.take(q as int));
        assert(cuts[q as int]@ == cs[q as int]);
        if q > 0 {
            out.push('\n');
        } else {
            assert(cs.take(1) =~= seq![cs[0]]);
        }
        let c = cuts[q].as_slice();
        push_range(&mut out, c, 0, c.len());
        assert(c@.subrange(0, c@.len() as int) =~= c@);
        q += 1;
    }
    assert(cs.take(cs.len() as int) =~= cs);
    assert(ls.take(ls.len() as int) =~= ls);
    let e = back_ws(out.as_slice(), 0, out.len());
    assert(out@.subrange(0, out@.len() as int) =~= out@);
    Some(copy_range(out.as_slice(), 0, e))
}

/// If some line of a prefix cannot be cut, no longer prefix can be either.
pub proof fn lemma_cut_lines_prefix(ls: Seq<Seq<char>>, j: int, p: nat)
    requires
        0 <= j <= ls.len(),
        cut_lines(ls.take(j), p) is None,
    ensures
        cut_lines(ls, p) is None,
    decreases ls.len() - j,
{
    if j < ls.len() {
        assert(ls.take(j + 1).drop_last() =~= ls.take(j));
        lemma_cut_lines_prefix(ls, j + 1, p);
    } else {
        assert(ls.take(j) =~= ls);
    }
}

/// Whether the attributes `own` of a task make it live with several
/// replicas whatever the defaults are: both come from its own attributes,
/// which no later line overrides.
pub open spec fn own_live_replicas(own: Seq<(Seq<char>, Seq<char>, nat)>) -> bool {
    match apply_attrs(TaskView { replicas: 1, ..empty_task() }, own, 0) {
        Ok(t) => t.live && t.replicas > 1,
        Err(_) => false,
    }
}

/// `tasks` with the task `t`, whose body is `lines` (its header on line
/// `hn`) and whose own attributes are `own`, added after the checks made
/// when a task ends: a body or dependencies, no live workspace with several
/// replicas set by its own attributes, and a name not used before.
pub open spec fn finish_spec(
    tasks: Seq<TaskView>,
    t: TaskView,
    lines: Seq<Seq<char>>,
    hn: nat,
    own: Seq<(Seq<char>, Seq<char>, nat)>,
) -> Result<Seq<TaskView>, ExfileErrorView> {
    match dedent(lines) {
        None => Err(ExfileErrorView::Unsliceable),
        Some(script) => {
            let t2 = TaskView { script, ..t };
            if script.len() == 0 && t2.deps.len() == 0 {
                Err(ExfileErrorView::EmptyBody { task: t.name, line: hn })
            } else if own_live_replicas(own) {
                Err(ExfileErrorView::LiveReplicas { task: t.name })
            } else if find_task(tasks, t.name) is Some {
                Err(ExfileErrorView::Duplicate { task: t.name })
            } else {
                Ok(tasks.push(t2))
            }
        },
    }
}

/// The state of the line-by-line reading of an exfile: the finished tasks
/// with, beside them, the attributes given to each, the defaults set so far,
/// the attributes waiting for the next task, and the task being read with
/// its body lines and header line number and the attributes given to it.
pub struct ParseState {
    pub tasks: Seq<TaskView>,
    pub own: Seq<Seq<(Seq<char>, Seq<char>, nat)>>,
    pub defaults: TaskView,
    pub attrs: Seq<(Seq<char>, Seq<char>, nat)>,
    pub cur: Option<(TaskView, Seq<Seq<char>>, nat)>,
    pub held: Seq<(Seq<char>, Seq<char>, nat)>,
}

/// Ends the task being read, if any.
pub open spec fn close_current(st: ParseState) -> Result<ParseState, ExfileErrorView> {
    match st.cur {
        None => Ok(st),
        Some(c) => match finish_spec(st.tasks, c.0, c.1, c.2, st.held) {
            Ok(ts) => Ok(ParseState { tasks: ts, own: st.own.push(st.held), held: seq![], cur: None, ..st }),
            Err(e) => Err(e),
        },
    }
}

/// Records the attributes `parts[i..]` of an attribute line.
pub open spec fn add_attrs(st: ParseState, parts: Seq<Seq<char>>, i: int, n: nat) -> Result<
    ParseState,
    ExfileErrorView,
>
    decreases parts.len() - i,
{
    if i < 0 || i >= parts.len() {
        Ok(st)
    } else {
        match split_once_char(parts[i], ':') {
            None => Err(ExfileErrorView::ExpectedKeyValue { line: n }),
            Some(kv) => match expand(unquote(kv.1), st.defaults.env, n) {
                Err(e) => Err(e),
                Ok(val) => add_attrs(
                    ParseState { attrs: st.attrs.push((trim(kv.0), val, n)), ..st },
                    parts,
                    i + 1,
                    n,
                ),
            },
        }
    }
}

/// A `key := value` line: an environment variable or a default attribute.
pub open spec fn define(st: ParseState, k: Seq<char>, v: Seq<char>, n: nat) -> Result<
    ParseState,
    ExfileErrorView,
> {
    match expand(unquote(v), st.defaults.env, n) {
        Err(e) => Err(e),
        Ok(val) => if env_key(k) {
            Ok(
                ParseState {
                    defaults: TaskView { env: st.defaults.env.push((k, val)), ..st.defaults },
                    ..st
                },
            )
        } else {
            match set_attr(st.defaults, k, val, n) {
                Ok(d) => Ok(ParseState { defaults: d, ..st }),
                Err(e) => Err(e),
            }
        },
    }
}

/// The first word that is not a valid task name.
pub open spec fn first_bad(ds: Seq<Seq<char>>) -> Option<Seq<char>>
    decreases ds.len(),
{
    if ds.len() == 0 {
        None
    } else if !valid_name(ds[0]) {
        Some(ds[0])
    } else {
        first_bad(ds.drop_first())
    }
}

/// `t` with the pending attributes `attrs[i..]` applied in order.
pub open spec fn apply_attrs(t: TaskView, attrs: Seq<(Seq<char>, Seq<char>, nat)>, i: int) -> Result<
    TaskView,
    ExfileErrorView,
>
    decreases attrs.len() - i,
{
    if i < 0 || i >= attrs.len() {
        Ok(t)
    } else {
        let a = attrs[i];
        if env_key(a.0) {
            apply_attrs(TaskView { env: t.env.push((a.0, a.1)), ..t }, attrs, i + 1)
        } else {
            match set_attr(t, a.0, a.1, a.2) {
                Ok(t2) => apply_attrs(t2, attrs, i + 1),
                Err(e) => Err(e),
            }
        }
    }
}

/// A `name: deps...` line: a new task from the defaults and the pending
/// attributes, which go with it. Applying them here finds any error they
/// hold; the task's final values come from the defaults of the whole file
/// (see `settle`).
pub open spec fn start_task(st: ParseState, name: Seq<char>, deps: Seq<char>, n: nat) -> Result<
    ParseState,
    ExfileErrorView,
> {
    if !valid_name(name) {
        Err(ExfileErrorView::InvalidName { line: n, name })
    } else {
        match first_bad(words(deps)) {
            Some(d) => Err(ExfileErrorView::InvalidDep { line: n, dep: d }),
            None => match apply_attrs(
                TaskView { name, deps: st.defaults.deps + words(deps), ..st.defaults },
                st.attrs,
                0,
            ) {
                Err(e) => Err(e),
                Ok(t) => Ok(
                    ParseState { attrs: seq![], held: st.attrs, cur: Some((t, seq![], n)), ..st },
                ),
            },
        }
    }
}

/// A line outside any task body, trimmed.
pub open spec fn handle_line(st: ParseState, trimmed: Seq<char>, n: nat) -> Result<
    ParseState,
    ExfileErrorView,
> {
    if trimmed.len() == 0 || trimmed[0] == '#' {
        Ok(st)
    } else if trimmed[0] == '[' {
        let inner = trimmed.drop_first();
        if inner.len() > 0 && inner.last() == ']' {
            add_attrs(st, split_char(inner.drop_last(), ','), 0, n)
        } else {
            Err(ExfileErrorView::ExpectedAttrs { line: n })
        }
    } else {
        match split_once(trimmed, seq![':', '=']) {
            Some(kv) => define(st, trim(kv.0), kv.1, n),
            None => match split_once_char(trimmed, ':') {
                Some(nd) => start_task(st, trim(nd.0), nd.1, n),
                None => Err(ExfileErrorView::Unrecognized { line: n, text: trimmed }),
            },
        }
    }
}

/// Reads the line `raw`, line number `n`.
pub open spec fn step(st: ParseState, raw: Seq<char>, n: nat) -> Result<ParseState, ExfileErrorView> {
    let line = trim_end(raw);
    let indented = raw.len() > 0 && (raw[0] == ' ' || raw[0] == '\t');
    if st.cur is Some && (indented || trim(line).len() == 0) {
        let c = st.cur->0;
        Ok(ParseState { cur: Some((c.0, c.1.push(line), c.2)), ..st })
    } else {
        match close_current(st) {
            Err(e) => Err(e),
            Ok(st1) => handle_line(st1, trim(line), n),
        }
    }
}

/// Reads the lines `ls[i..]`.
pub open spec fn process(ls: Seq<Seq<char>>, i: int, st: ParseState) -> Result<
    ParseState,
    ExfileErrorView,
>
    decreases ls.len() - i,
{
    if i < 0 || i >= ls.len() {
        Ok(st)
    } else {
        match step(st, ls[i], (i + 1) as nat) {
            Err(e) => Err(e),
            Ok(st2) => process(ls, i + 1, st2),
        }
    }
}

/// The index of the first task that cannot be scheduled, with the reason.
pub open spec fn first_unschedulable(tasks: Seq<TaskView>, k: int) -> Option<ExfileErrorView>
    decreases tasks.len() - k,
{
    if k < 0 || k >= tasks.len() {
        None
    } else {
        match schedule_spec(tasks, tasks[k].name) {
            Err(e) => Some(e),
            Ok(_) => first_unschedulable(tasks, k + 1),
        }
    }
}

/// The state before the first line: defaults of one replica and the given
/// environment.
pub open spec fn initial_state(dotenv: Seq<(Seq<char>, Seq<char>)>) -> ParseState {
    ParseState {
        tasks: seq![],
        own: seq![],
        defaults: TaskView { replicas: 1, env: dotenv, ..empty_task() },
        attrs: seq![],
        cur: None,
        held: seq![],
    }
}

/// The final form of a task read as `t`, which was given the attributes
/// `own`, once `d` holds the defaults of the whole file: its name,
/// dependencies and body on top of `d`, then its own attributes in order;
/// refused when it asks for a live workspace with several replicas, or for
/// gpus without an image. So a `key := value` line reaches every task of the
/// file, before it or after it, and a task's own attributes win over it.
pub open spec fn settle(t: TaskView, own: Seq<(Seq<char>, Seq<char>, nat)>, d: TaskView) -> Result<
    TaskView,
    ExfileErrorView,
> {
    match apply_attrs(TaskView { name: t.name, deps: t.deps, script: t.script, ..d }, own, 0) {
        Err(e) => Err(e),
        Ok(t2) => if t2.live && t2.replicas > 1 {
            Err(ExfileErrorView::LiveReplicas { task: t.name })
        } else if t2.gpus > 0 && t2.image is None {
            Err(ExfileErrorView::GpusWithoutImage { task: t.name })
        } else {
            Ok(t2)
        },
    }
}

/// `acc` followed by the final forms of `tasks[k..]`, or the first refusal.
pub open spec fn settle_from(
    tasks: Seq<TaskView>,
    own: Seq<Seq<(Seq<char>, Seq<char>, nat)>>,
    d: TaskView,
    k: int,
    acc: Seq<TaskView>,
) -> Result<Seq<TaskView>, ExfileErrorView>
    decreases tasks.len() - k,
{
    if k < 0 || k >= tasks.len() {
        Ok(acc)
    } else {
        match settle(tasks[k], own[k], d) {
            Err(e) => Err(e),
            Ok(t) => settle_from(tasks, own, d, k + 1, acc.push(t)),
        }
    }
}

/// The tasks of an exfile `text`, with `dotenv` the variables of the
/// directory's `.env`, or why the text is refused.
pub open spec fn parse_spec(text: Seq<char>, dotenv: Seq<(Seq<char>, Seq<char>)>) -> Result<
    Seq<TaskView>,
    ExfileErrorView,
> {
    match process(lines(text), 0, initial_state(dotenv)) {
        Err(e) => Err(e),
        Ok(st) => match close_current(st) {
            Err(e) => Err(e),
            Ok(st2) => match settle_from(st2.tasks, st2.own, st2.defaults, 0, seq![]) {
                Err(e) => Err(e),
                Ok(ts) => if st2.attrs.len() > 0 {
                    Err(ExfileErrorView::DanglingAttrs { line: st2.attrs[0].2 })
                } else if ts.len() == 0 {
                    Err(ExfileErrorView::NoTasks)
                } else {
                    match first_unschedulable(ts, 0) {
                        Some(e) => Err(e),
                        None => Ok(ts),
                    }
                },
            },
        },
    }
}

// ---------------------------------------------------------------------------
// The reader
// ---------------------------------------------------------------------------

/// Why reading stopped: an error of the file, or a task body whose
/// indentation would have to be cut inside a multi-byte character.
enum Stop {
    Fail(ExfileError),
    Unsliceable,
}

impl View for Stop {
    type V = ExfileErrorView;

    closed spec fn view(&self) -> ExfileErrorView {
        match self {
            Stop::Fail(e) => e@,
            Stop::Unsliceable => ExfileErrorView::Unsliceable,
        }
    }
}

fn finish_in(
    tasks: &mut Vec<Task>,
    t: Task,
    lines: &Vec<Vec<char>>,
    hn: usize,
    own: &Vec<(Vec<char>, Vec<char>, usize)>,
) -> (r: Result<(), Stop>)
    ensures
        match r {
            Ok(()) => finish_spec(views(old(tasks)@), t@, lines.deep_view(), hn as nat, attrs_view(own@)) == Ok::<
                Seq<TaskView>,
                ExfileErrorView,
            >(views(final(tasks)@)),
            Err(e) => finish_spec(views(old(tasks)@), t@, lines.deep_view(), hn as nat, attrs_view(own@)) == Err::<
                Seq<TaskView>,
                ExfileErrorView,
            >(e@),
        },
{
    let script = match dedent_in(lines) {
        Some(s) => s,
        None => {
            return Err(Stop::Unsliceable);
        },
    };
    let mut t = t;
    t.script = string_of(script.as_slice());
    if script.len() == 0 && t.deps.len() == 0 {
        return Err(Stop::Fail(ExfileError::EmptyBody { task: t.name.clone(), line: hn }));
    }
    let mut probe = Task::default();
    probe.replicas = 1;
    assert(probe@ == (TaskView { replicas: 1, ..empty_task() }));
    let fixed = match apply_attrs_in(&mut probe, own) {
        Ok(()) => probe.live && probe.replicas > 1,
        Err(_) => false,
    };
    if fixed {
        return Err(Stop::Fail(ExfileError::LiveReplicas { task: t.name.clone() }));
    }
    if find_task_in(tasks.as_slice(), &t.name).is_some() {
        return Err(Stop::Fail(ExfileError::Duplicate { task: t.name.clone() }));
    }
    let ghost tv = t@;
    tasks.push(t);
    assert(views(tasks@) =~= views(old(tasks)@).push(tv));
    Ok(())
}

/// Applies the attributes `attrs` to `t` in order, as `apply_attrs` says.
fn apply_attrs_in(t: &mut Task, attrs: &Vec<(Vec<char>, Vec<char>, usize)>) -> (r: Result<
    (),
    ExfileError,
>)
    ensures
        match r {
            Ok(()) => apply_attrs(old(t)@, attrs_view(attrs@), 0) == Ok::<
                TaskView,
                ExfileErrorView,
            >(final(t)@),
            Err(e) => apply_attrs(old(t)@, attrs_view(attrs@), 0) == Err::<
                TaskView,
                ExfileErrorView,
            >(e@),
        },
{
    let ghost av = attrs_view(attrs@);
    let ghost t0 = t@;
    let mut j: usize = 0;
    while j < attrs.len()
        invariant
            j <= attrs@.len(),
            av == attrs_view(attrs@),
            t0 == old(t)@,
            apply_attrs(t0, av, 0) == apply_attrs(t@, av, j as int),
        decreases attrs@.len() - j,
    {
        let ghost tb = t@;
        let k = attrs[j].0.as_slice();
        let v = attrs[j].1.as_slice();
        let an = attrs[j].2;
        if env_key_in(k) {
            let ghost before = t.env.deep_view();
            t.env.push((string_of(k), string_of(v)));
            assert(t.env.deep_view() =~~= before.push((k@, v@)));
            assert(t@ == (TaskView { env: tb.env.push((av[j as int].0, av[j as int].1)), ..tb }));
        } else {
            match set_in(t, k, v, an) {
                Ok(()) => {},
                Err(e) => {
                    return Err(e);
                },
            }
        }
        j += 1;
    }
    Ok(())
}

/// The final form of a task, as `settle` says.
fn settle_in(t: &Task, own: &Vec<(Vec<char>, Vec<char>, usize)>, d: &Task) -> (r: Result<
    Task,
    ExfileError,
>)
    ensures
        match r {
            Ok(x) => settle(t@, attrs_view(own@), d@) == Ok::<TaskView, ExfileErrorView>(x@),
            Err(e) => settle(t@, attrs_view(own@), d@) == Err::<TaskView, ExfileErrorView>(e@),
        },
{
    let mut x = d.duplicate();
    x.name = t.name.clone();
    x.deps = copy_strings(&t.deps);
    x.script = t.script.clone();
    assert(x@ == (TaskView { name: t@.name, deps: t@.deps, script: t@.script, ..d@ }));
    match apply_attrs_in(&mut x, own) {
        Err(e) => {
            return Err(e);
        },
        Ok(()) => {},
    }
    if x.live && x.replicas > 1 {
        return Err(ExfileError::LiveReplicas { task: t.name.clone() });
    }
    if x.gpus > 0 && x.image.is_none() {
        return Err(ExfileError::GpusWithoutImage { task: t.name.clone() });
    }
    Ok(x)
}

/// The reader's state: what `ParseState` describes.
struct Parser {
    tasks: Vec<Task>,
    own: Vec<Vec<(Vec<char>, Vec<char>, usize)>>,
    defaults: Task,
    attrs: Vec<(Vec<char>, Vec<char>, usize)>,
    cur: Option<(Task, Vec<Vec<char>>, usize)>,
    held: Vec<(Vec<char>, Vec<char>, usize)>,
}

/// The views of the attribute lists of the finished tasks.
pub open spec fn own_view(o: Seq<Vec<(Vec<char>, Vec<char>, usize)>>) -> Seq<
    Seq<(Seq<char>, Seq<char>, nat)>,
> {
    Seq::new(o.len(), |i: int| attrs_view(o[i]@))
}

pub open spec fn attrs_view(a: Seq<(Vec<char>, Vec<char>, usize)>) -> Seq<
    (Seq<char>, Seq<char>, nat),
> {
    Seq::new(a.len(), |i: int| (a[i].0@, a[i].1@, a[i].2 as nat))
}

impl Parser {
    spec fn state(&self) -> ParseState {
        ParseState {
            tasks: views(self.tasks@),
            own: own_view(self.own@),
            defaults: self.defaults@,
            attrs: attrs_view(self.attrs@),
            cur: match self.cur {
                None => None,
                Some(c) => Some((c.0@, c.1.deep_view(), c.2 as nat)),
            },
            held: attrs_view(self.held@),
        }
    }

    fn close(&mut self) -> (r: Result<(), Stop>)
        ensures
            match r {
                Ok(()) => close_current(old(self).state()) == Ok::<ParseState, ExfileErrorView>(
                    final(self).state(),
                ),
                Err(e) => close_current(old(self).state()) == Err::<ParseState, ExfileErrorView>(
                    e@,
                ),
            },
    {
        match self.cur.take() {
            None => Ok(()),
            Some(c) => {
                let (t, ls, hn) = c;
                match finish_in(&mut self.tasks, t, &ls, hn, &self.held) {
                    Ok(()) => {
                        let ghost o = own_view(self.own@);
                        let ghost hv = attrs_view(self.held@);
                        let mut h: Vec<(Vec<char>, Vec<char>, usize)> = Vec::new();
                        std::mem::swap(&mut h, &mut self.held);
                        self.own.push(h);
                        assert(own_view(self.own@) =~= o.push(hv));
                        assert(attrs_view(self.held@) =~= seq![]);
                        Ok(())
                    },
                    Err(e) => Err(e),
                }
            },
        }
    }

    fn add_attrs_in(&mut self, s: &[char], lo: usize, hi: usize, n: usize) -> (r: Result<
        (),
        ExfileError,
    >)
        requires
            lo <= hi <= s@.len(),
            old(self).cur is None,
        ensures
            final(self).cur is None,
            match r {
                Ok(()) => add_attrs(
                    old(self).state(),
                    split_char(s@.subrange(lo as int, hi as int), ','),
                    0,
                    n as nat,
                ) == Ok::<ParseState, ExfileErrorView>(final(self).state()),
                Err(e) => add_attrs(
                    old(self).state(),
                    split_char(s@.subrange(lo as int, hi as int), ','),
                    0,
                    n as nat,
                ) == Err::<ParseState, ExfileErrorView>(e@),
            },
    {
        let ghost parts = split_char(s@.subrange(lo as int, hi as int), ',');
        let ghost st0 = self.state();
        let ps = split_char_in(s, lo, hi, ',');
        let mut i: usize = 0;
        while i < ps.len()
            invariant
                i <= ps@.len(),
                lo <= hi <= s@.len(),
                ps@.len() == parts.len(),
                forall|k: int|
                    0 <= k < ps@.len() ==> lo <= (#[trigger] ps@[k]).0 <= ps@[k].1 <= hi
                        && s@.subrange(ps@[k].0 as int, ps@[k].1 as int) == parts[k],
                self.cur is None,
                st0 == old(self).state(),
                parts == split_char(s@.subrange(lo as int, hi as int), ','),
                add_attrs(st0, parts, 0, n as nat) == add_attrs(self.state(), parts, i as int, n as nat),
            decreases ps@.len() - i,
        {
            let (a, b) = ps[i];
            let ghost part = parts[i as int];
            assert(s@.subrange(a as int, b as int) == part);
            match find_char_in(s, a, b, ':') {
                None => {
                    assert(split_once_char(part, ':') is None);
                    assert(add_attrs(self.state(), parts, i as int, n as nat) == Err::<ParseState, ExfileErrorView>(ExfileErrorView::ExpectedKeyValue { line: n as nat }));
                    return Err(ExfileError::ExpectedKeyValue { line: n });
                },
                Some(k) => {
                    assert(part.subrange(0, k - a) =~= s@.subrange(a as int, k as int));
                    assert(part.subrange(k - a + 1, part.len() as int) =~= s@.subrange(
                        k + 1,
                        b as int,
                    ));
                    let key = copy_range(s, a, k);
                    let key = trimmed(key.as_slice());
                    let v = unquote_in(s, k + 1, b);
                    match expand_in(v.as_slice(), &self.defaults.env, n) {
                        Err(e) => {
                            assert(split_once_char(part, ':') == Some((s@.subrange(a as int, k as int), s@.subrange(k + 1, b as int))));
                            assert(add_attrs(self.state(), parts, i as int, n as nat) == Err::<ParseState, ExfileErrorView>(e@));
                            return Err(e);
                        },
                        Ok(val) => {
                            let ghost before = self.attrs@;
                            self.attrs.push((key, val, n));
                            assert(attrs_view(self.attrs@) =~= attrs_view(before).push(
                                (key@, val@, n as nat),
                            ));
                        },
                    }
                },
            }
            i += 1;
        }
        Ok(())
    }

    fn define_in(&mut self, k: &[char], s: &[char], lo: usize, hi: usize, n: usize) -> (r: Result<
        (),
        ExfileError,
    >)
        requires
            lo <= hi <= s@.len(),
        ensures
            final(self).cur == old(self).cur,
            match r {
                Ok(()) => define(old(self).state(), k@, s@.subrange(lo as int, hi as int), n as nat)
                    == Ok::<ParseState, ExfileErrorView>(final(self).state()),
                Err(e) => define(old(self).state(), k@, s@.subrange(lo as int, hi as int), n as nat)
                    == Err::<ParseState, ExfileErrorView>(e@),
            },
    {
        let v = unquote_in(s, lo, hi);
        let val = match expand_in(v.as_slice(), &self.defaults.env, n) {
            Err(e) => {
                return Err(e);
            },
            Ok(val) => val,
        };
        if env_key_in(k) {
            let ghost before = self.defaults.env.deep_view();
            self.defaults.env.push((string_of(k), string_of(val.as_slice())));
            assert(self.defaults.env.deep_view() =~~= before.push((k@, val@)));
            Ok(())
        } else {
            set_in(&mut self.defaults, k, val.as_slice(), n)
        }
    }

    fn start_task_in(&mut self, name: &[char], s: &[char], lo: usize, hi: usize, n: usize) -> (r:
        Result<(), ExfileError>)
        requires
            lo <= hi <= s@.len(),
        ensures
            match r {
                Ok(()) => start_task(
                    old(self).state(),
                    name@,
                    s@.subrange(lo as int, hi as int),
                    n as nat,
                ) == Ok::<ParseState, ExfileErrorView>(final(self).state()),
                Err(e) => start_task(
                    old(self).state(),
                    name@,
                    s@.subrange(lo as int, hi as int),
                    n as nat,
                ) == Err::<ParseState, ExfileErrorView>(e@),
            },
    {
        if !valid_name_in(name) {
            return Err(ExfileError::InvalidName { line: n, name: string_of(name) });
        }
        let ghost ws = words(s@.subrange(lo as int, hi as int));
        let deps = words_in(s, lo, hi);
        let mut t = self.defaults.duplicate();
        t.name = string_of(name);
        let ghost d0 = t.deps.deep_view();
        assert(ws.subrange(0, ws.len() as int) =~= ws);
        assert(ws.take(0) =~= seq![]);
        assert(d0 + ws.take(0) =~= d0);
        let mut i: usize = 0;
        while i < deps.len()
            invariant
                i <= deps@.len(),
                lo <= hi <= s@.len(),
                deps@.len() == ws.len(),
                forall|k: int|
                    0 <= k < deps@.len() ==> lo <= (#[trigger] deps@[k]).0 <= deps@[k].1 <= hi
                        && s@.subrange(deps@[k].0 as int, deps@[k].1 as int) == ws[k],
                first_bad(ws) == first_bad(ws.subrange(i as int, ws.len() as int)),
                valid_name(name@),
                ws == words(s@.subrange(lo as int, hi as int)),
                self.state() == old(self).state(),
                t.deps.deep_view() == d0 + ws.take(i as int),
                t@ == (TaskView { name: name@, deps: d0 + ws.take(i as int), ..old(self).defaults@ }),
                d0 == old(self).defaults@.deps,
            decreases deps@.len() - i,
        {
            let (a, b) = deps[i];
            let d = copy_range(s, a, b);
            assert(ws.subrange(i as int, ws.len() as int).drop_first() =~= ws.subrange(
                i + 1,
                ws.len() as int,
            ));
            assert(ws.subrange(i as int, ws.len() as int)[0] == ws[i as int]);
            if !valid_name_in(d.as_slice()) {
                return Err(ExfileError::InvalidDep { line: n, dep: string_of(d.as_slice()) });
            }
            let ghost before = t.deps.deep_view();
            t.deps.push(string_of(d.as_slice()));
            assert(t.deps.deep_view() =~~= before.push(d@));
            assert(d0 + ws.take(i + 1) =~= (d0 + ws.take(i as int)).push(ws[i as int]));
            i += 1;
        }
        assert(ws.take(ws.len() as int) =~= ws);
        assert(ws.subrange(ws.len() as int, ws.len() as int) =~= seq![]);
        assert(t@ == (TaskView { name: name@, deps: old(self).defaults@.deps + ws, ..old(self).defaults@ }));
        match apply_attrs_in(&mut t, &self.attrs) {
            Ok(()) => {},
            Err(e) => {
                return Err(e);
            },
        }
        let ghost av = attrs_view(self.attrs@);
        self.held = Vec::new();
        std::mem::swap(&mut self.held, &mut self.attrs);
        self.cur = Some((t, Vec::new(), n));
        proof {
            let st = self.state();
            assert(st.attrs =~= seq![]);
            assert(st.held == av);
            let c = st.cur->0;
            assert(c.1 =~= seq![]);
        }
        Ok(())
    }

    fn handle_line_in(&mut self, s: &[char], n: usize) -> (r: Result<(), ExfileError>)
        requires
            old(self).cur is None,
        ensures
            match r {
                Ok(()) => handle_line(old(self).state(), s@, n as nat) == Ok::<
                    ParseState,
                    ExfileErrorView,
                >(final(self).state()),
                Err(e) => handle_line(old(self).state(), s@, n as nat) == Err::<
                    ParseState,
                    ExfileErrorView,
                >(e@),
            },
    {
        if s.len() == 0 || s[0] == '#' {
            return Ok(());
        }
        if s[0] == '[' {
            if s.len() >= 2 && s[s.len() - 1] == ']' {
                assert(s@.drop_first().drop_last() =~= s@.subrange(1, s@.len() - 1));
                return self.add_attrs_in(s, 1, s.len() - 1, n);
            } else {
                return Err(ExfileError::ExpectedAttrs { line: n });
            }
        }
        let pat = vec![':', '='];
        assert(pat@ =~= seq![':', '=']);
        assert(s@.subrange(0, s@.len() as int) =~= s@);
        match find_in(s, 0, s.len(), pat.as_slice()) {
            Some(k) => {
                let key = copy_range(s, 0, k);
                let key = trimmed(key.as_slice());
                return self.define_in(key.as_slice(), s, k + 2, s.len(), n);
            },
            None => {},
        }
        match find_char_in(s, 0, s.len(), ':') {
            Some(k) => {
                let name = copy_range(s, 0, k);
                let name = trimmed(name.as_slice());
                self.start_task_in(name.as_slice(), s, k + 1, s.len(), n)
            },
            None => Err(ExfileError::Unrecognized { line: n, text: string_of(s) }),
        }
    }

    fn step_in(&mut self, raw: &[char], n: usize) -> (r: Result<(), Stop>)
        ensures
            match r {
                Ok(()) => step(old(self).state(), raw@, n as nat) == Ok::<ParseState, ExfileErrorView>(
                    final(self).state(),
                ),
                Err(e) => step(old(self).state(), raw@, n as nat) == Err::<ParseState, ExfileErrorView>(
                    e@,
                ),
            },
    {
        let e = back_ws(raw, 0, raw.len());
        assert(raw@.subrange(0, raw@.len() as int) =~= raw@);
        let line = copy_range(raw, 0, e);
        let indented = raw.len() > 0 && (raw[0] == ' ' || raw[0] == '\t');
        let (a, b) = trim_range(line.as_slice(), 0, line.len());
        assert(line@.subrange(0, line@.len() as int) =~= line@);
        if self.cur.is_some() && (indented || a == b) {
            let ghost st = self.state();
            match &mut self.cur {
                Some(c) => {
                    let ghost before = c.1.deep_view();
                    assert(line.deep_view() =~= line@);
                    c.1.push(line);
                    assert(c.1.deep_view() =~~= before.push(line@));
                },
                None => {},
            }
            return Ok(());
        }
        match self.close() {
            Err(e) => {
                return Err(e);
            },
            Ok(()) => {},
        }
        let t = copy_range(line.as_slice(), a, b);
        match self.handle_line_in(t.as_slice(), n) {
            Ok(()) => Ok(()),
            Err(e) => Err(Stop::Fail(e)),
        }
    }
}

/// A copy of a slice of string pairs.
fn pairs_of(v: &[(String, String)]) -> (r: Vec<(String, String)>)
    ensures
        r.deep_view() == v.deep_view(),
{
    let mut r: Vec<(String, String)> = Vec::new();
    let mut i: usize = 0;
    while i < v.len()
        invariant
            i <= v@.len(),
            r.deep_view() == v.deep_view().take(i as int),
        decreases v@.len() - i,
    {
        let p = (v[i].0.clone(), v[i].1.clone());
        assert(p.deep_view() == v[i as int].deep_view());
        let ghost before = r.deep_view();
        r.push(p);
        assert(r.deep_view() =~= before.push(v[i as int].deep_view()));
        assert(v.deep_view().take(i + 1) =~= v.deep_view().take(i as int).push(v[i as int].deep_view()));
        i += 1;
    }
    assert(v.deep_view().take(v@.len() as int) =~= v.deep_view());
    r
}

/// Reads an exfile. `dotenv` holds the variables of the `.env` file beside
/// it, which `${NAME}` can refer to and every task's environment starts with.
/// The tasks come in file order. The text is refused as `parse_spec` says.
/// Input on which the body indentation of a task would end inside a
/// multi-byte character cannot be cut there and is left out; `try_parse`
/// takes it and says so.
pub fn parse(text: &str, dotenv: &[(String, String)]) -> (r: Result<Vec<Task>, ExfileError>)
    requires
        parse_spec(text@, dotenv.deep_view()) != Err::<Seq<TaskView>, ExfileErrorView>(
            ExfileErrorView::Unsliceable,
        ),
    ensures
        match r {
            Ok(v) => parse_spec(text@, dotenv.deep_view()) == Ok::<Seq<TaskView>, ExfileErrorView>(
                views(v@),
            ),
            Err(e) => parse_spec(text@, dotenv.deep_view()) == Err::<Seq<TaskView>, ExfileErrorView>(
                e@,
            ),
        },
{
    match try_parse(text, dotenv) {
        Some(r) => r,
        None => {
            proof {
                assert(false);
            }
            Err(ExfileError::NoTasks)
        },
    }
}

/// Reads an exfile as `parse` does, on every input: nothing exactly when a
/// task body's indentation would end inside a multi-byte character.
pub fn try_parse(text: &str, dotenv: &[(String, String)]) -> (r: Option<Result<Vec<Task>, ExfileError>>)
    ensures
        match r {
            None => parse_spec(text@, dotenv.deep_view()) == Err::<Seq<TaskView>, ExfileErrorView>(
                ExfileErrorView::Unsliceable,
            ),
            Some(Ok(v)) => parse_spec(text@, dotenv.deep_view()) == Ok::<Seq<TaskView>, ExfileErrorView>(
                views(v@),
            ),
            Some(Err(e)) => parse_spec(text@, dotenv.deep_view()) == Err::<Seq<TaskView>, ExfileErrorView>(
                e@,
            ),
        },
{
    let chars = chars_of(text);
    let ls = split_lines(chars.as_slice());
    let ghost lv = lines(text@);
    let mut defaults = Task::default();
    defaults.replicas = 1;
    defaults.env = pairs_of(dotenv);
    let mut p = Parser {
        tasks: Vec::new(),
        own: Vec::new(),
        defaults,
        attrs: Vec::new(),
        cur: None,
        held: Vec::new(),
    };
    proof {
        let st = p.state();
        assert(st.tasks =~= seq![]);
        assert(st.own =~= seq![]);
        assert(st.attrs =~= seq![]);
        assert(st.held =~= seq![]);
        assert(st == initial_state(dotenv.deep_view()));
    }
    let mut i: usize = 0;
    while i < ls.len()
        invariant
            i <= ls@.len(),
            ls.deep_view() == lv,
            lv == lines(text@),
            process(lv, 0, initial_state(dotenv.deep_view())) == process(lv, i as int, p.state()),
        decreases ls@.len() - i,
    {
        assert(ls[i as int]@ == lv[i as int]);
        match p.step_in(ls[i].as_slice(), i + 1) {
            Err(Stop::Fail(e)) => {
                return Some(Err(e));
            },
            Err(Stop::Unsliceable) => {
                return None;
            },
            Ok(()) => {},
        }
        i += 1;
    }
    match p.close() {
        Err(Stop::Fail(e)) => {
            return Some(Err(e));
        },
        Err(Stop::Unsliceable) => {
            return None;
        },
        Ok(()) => {},
    }
    let ghost st2 = p.state();
    proof {
        lemma_read_all(text@, dotenv.deep_view());
    }
    assert(parse_spec(text@, dotenv.deep_view()) == (match settle_from(st2.tasks, st2.own, st2.defaults, 0, seq![]) {
        Err(e) => Err(e),
        Ok(ts) => if st2.attrs.len() > 0 {
            Err(ExfileErrorView::DanglingAttrs { line: st2.attrs[0].2 })
        } else if ts.len() == 0 {
            Err(ExfileErrorView::NoTasks)
        } else {
            match first_unschedulable(ts, 0) {
                Some(e) => Err(e),
                None => Ok(ts),
            }
        },
    }));
    let mut out: Vec<Task> = Vec::new();
    let mut j: usize = 0;
    assert(views(out@) =~= seq![]);
    while j < p.tasks.len()
        invariant
            j <= p.tasks@.len(),
            p.own@.len() == p.tasks@.len(),
            st2 == p.state(),
            parse_spec(text@, dotenv.deep_view()) == (match settle_from(st2.tasks, st2.own, st2.defaults, 0, seq![]) {
                Err(e) => Err(e),
                Ok(ts) => if st2.attrs.len() > 0 {
                    Err(ExfileErrorView::DanglingAttrs { line: st2.attrs[0].2 })
                } else if ts.len() == 0 {
                    Err(ExfileErrorView::NoTasks)
                } else {
                    match first_unschedulable(ts, 0) {
                        Some(e) => Err(e),
                        None => Ok(ts),
                    }
                },
            }),
            settle_from(st2.tasks, st2.own, st2.defaults, 0, seq![]) == settle_from(
                st2.tasks,
                st2.own,
                st2.defaults,
                j as int,
                views(out@),
            ),
        decreases p.tasks@.len() - j,
    {
        assert(st2.own[j as int] == attrs_view(p.own@[j as int]@));
        assert(st2.tasks[j as int] == p.tasks@[j as int]@);
        match settle_in(&p.tasks[j], &p.own[j], &p.defaults) {
            Err(e) => {
                assert(settle_from(st2.tasks, st2.own, st2.defaults, j as int, views(out@)) == Err::<
                    Seq<TaskView>,
                    ExfileErrorView,
                >(e@));
                return Some(Err(e));
            },
            Ok(x) => {
                let ghost before = views(out@);
                out.push(x);
                assert(views(out@) =~= before.push(x@));
            },
        }
        j += 1;
    }
    if p.attrs.len() > 0 {
        return Some(Err(ExfileError::DanglingAttrs { line: p.attrs[0].2 }));
    }
    if out.len() == 0 {
        return Some(Err(ExfileError::NoTasks));
    }
    assert(parse_spec(text@, dotenv.deep_view()) == (match first_unschedulable(views(out@), 0) {
        Some(e) => Err(e),
        None => Ok::<Seq<TaskView>, ExfileErrorView>(views(out@)),
    }));
    let mut k: usize = 0;
    while k < out.len()
        invariant
            k <= out@.len(),
            parse_spec(text@, dotenv.deep_view()) == (match first_unschedulable(views(out@), 0) {
                Some(e) => Err(e),
                None => Ok::<Seq<TaskView>, ExfileErrorView>(views(out@)),
            }),
            first_unschedulable(views(out@), 0) == first_unschedulable(
                views(out@),
                k as int,
            ),
        decreases out@.len() - k,
    {
        match schedule(out.as_slice(), out[k].name.as_str()) {
            Err(e) => {
                return Some(Err(e));
            },
            Ok(_) => {},
        }
        k += 1;
    }
    Some(Ok(out))
}

// ---------------------------------------------------------------------------
// Laws of scheduling
// ---------------------------------------------------------------------------

/// Every index of `o` is a task's.
pub open spec fn in_range(tasks: Seq<TaskView>, o: Seq<usize>) -> bool {
    forall|j: int| 0 <= j < o.len() ==> o[j] < tasks.len()
}

/// No two entries of `o` are tasks of the same name.
pub open spec fn distinct_names(tasks: Seq<TaskView>, o: Seq<usize>) -> bool {
    forall|a: int, b: int|
        0 <= a < b < o.len() ==> tasks[o[a] as int].name != tasks[o[b] as int].name
}

/// Whether one of the first `j` entries of `o` is a task named `name`.
pub open spec fn placed_before(tasks: Seq<TaskView>, o: Seq<usize>, j: int, name: Seq<char>) -> bool {
    exists|j2: int| 0 <= j2 < j && tasks[o[j2] as int].name == name
}

/// Every dependency of an entry of `o` names an entry before it.
pub open spec fn deps_first(tasks: Seq<TaskView>, o: Seq<usize>) -> bool {
    forall|j: int, d: int|
        0 <= j < o.len() && 0 <= d < tasks[o[j] as int].deps.len() ==> #[trigger] placed_before(
            tasks,
            o,
            j,
            tasks[o[j] as int].deps[d],
        )
}

/// The walk keeps what it placed, places nothing twice, places each task
/// after its dependencies, places the task it visits, and places no task of
/// the current chain.
proof fn lemma_visit(tasks: Seq<TaskView>, name: Seq<char>, path: Seq<Seq<char>>, out: Seq<usize>)
    requires
        tasks.len() <= usize::MAX,
        path_ok(tasks, path),
        in_range(tasks, out),
        distinct_names(tasks, out),
        deps_first(tasks, out),
    ensures
        visit(tasks, name, path, out) matches Ok(o) ==> {
            &&& o.len() >= out.len()
            &&& o.take(out.len() as int) == out
            &&& in_range(tasks, o)
            &&& distinct_names(tasks, o)
            &&& deps_first(tasks, o)
            &&& placed(tasks, o, name)
            &&& forall|j: int| out.len() <= j < o.len() ==> !path.contains(tasks[o[j] as int].name)
        },
    decreases tasks.len() - path.len(), 0int,
{
    lemma_path_len(tasks, path);
    if placed(tasks, out, name) {
        assert(out.take(out.len() as int) =~= out);
    } else if path.contains(name) {
    } else {
        match find_task(tasks, name) {
            None => {},
            Some(i) => {
                lemma_find_task_from(tasks, name, 0);
                let p2 = path.push(name);
                assert(path_ok(tasks, p2)) by {
                    assert(tasks.map_values(|t: TaskView| t.name)[i] == name);
                    assert forall|k: int| 0 <= k < p2.len() implies name_set(tasks).contains(
                        #[trigger] p2[k],
                    ) by {
                        if k < path.len() {
                            assert(p2[k] == path[k]);
                        }
                    }
                }
                lemma_path_len(tasks, p2);
                lemma_visit_deps(tasks, tasks[i].deps, 0, p2, out);
                match visit_deps(tasks, tasks[i].deps, 0, p2, out) {
                    Err(_) => {},
                    Ok(o1) => {
                        let o = o1.push(i as usize);
                        assert(o.take(out.len() as int) =~= out) by {
                            assert(o.take(out.len() as int) =~= o1.take(out.len() as int));
                        }
                        assert forall|j: int| 0 <= j < o1.len() implies tasks[o1[j] as int].name
                            != name by {
                            if j < out.len() {
                                assert(o1[j] == out[j]);
                                if tasks[out[j] as int].name == name {
                                    assert(placed(tasks, out, name));
                                }
                            } else {
                                assert(!p2.contains(tasks[o1[j] as int].name));
                                assert(p2[path.len() as int] == name);
                            }
                        }
                        assert(distinct_names(tasks, o)) by {
                            assert forall|a: int, b: int| 0 <= a < b < o.len() implies tasks[o[a] as int].name
                                != tasks[o[b] as int].name by {
                                if b == o1.len() {
                                    assert(o[a] == o1[a]);
                                    assert(tasks[o1[a] as int].name != name);
                                    assert(tasks[o[b] as int].name == name);
                                } else {
                                    assert(o[a] == o1[a]);
                                    assert(o[b] == o1[b]);
                                }
                            }
                        }
                        {
                            assert forall|j: int, d: int|
                                0 <= j < o.len() && 0 <= d < tasks[o[j] as int].deps.len() implies #[trigger] placed_before(
                                tasks,
                                o,
                                j,
                                tasks[o[j] as int].deps[d],
                            ) by {
                                if j == o1.len() {
                                    assert(o[j] as int == i);
                                    assert(placed(tasks, o1, tasks[i].deps[d]));
                                    let j2 = choose|j2: int|
                                        0 <= j2 < o1.len() && tasks[o1[j2] as int].name == tasks[i].deps[d];
                                    assert(o[j2] == o1[j2]);
                                } else {
                                    assert(o[j] == o1[j]);
                                    assert(placed_before(tasks, o1, j, tasks[o1[j] as int].deps[d]));
                                    let j2 = choose|j2: int|
                                        0 <= j2 < j && tasks[o1[j2] as int].name == tasks[o1[j] as int].deps[d];
                                    assert(o[j2] == o1[j2]);
                                }
                            }
                        }
                        assert(deps_first(tasks, o));
                        assert(tasks[o[o1.len() as int] as int].name == name);
                        assert forall|j: int| out.len() <= j < o.len() implies !path.contains(
                            tasks[o[j] as int].name,
                        ) by {
                            if j < o1.len() {
                                assert(o[j] == o1[j]);
                                let x = tasks[o1[j] as int].name;
                                assert(!p2.contains(x));
                                if path.contains(x) {
                                    let q = choose|q: int| 0 <= q < path.len() && path[q] == x;
                                    assert(p2[q] == x);
                                }
                            }
                        }
                    },
                }
            },
        }
    }
}

proof fn lemma_visit_deps(
    tasks: Seq<TaskView>,
    deps: Seq<Seq<char>>,
    k: int,
    path: Seq<Seq<char>>,
    out: Seq<usize>,
)
    requires
        tasks.len() <= usize::MAX,
        path_ok(tasks, path),
        0 <= k,
        in_range(tasks, out),
        distinct_names(tasks, out),
        deps_first(tasks, out),
    ensures
        visit_deps(tasks, deps, k, path, out) matches Ok(o) ==> {
            &&& o.len() >= out.len()
            &&& o.take(out.len() as int) == out
            &&& in_range(tasks, o)
            &&& distinct_names(tasks, o)
            &&& deps_first(tasks, o)
            &&& forall|d: int| k <= d < deps.len() ==> placed(tasks, o, #[trigger] deps[d])
            &&& forall|j: int| out.len() <= j < o.len() ==> !path.contains(tasks[o[j] as int].name)
        },
    decreases tasks.len() - path.len(), deps.len() - k,
{
    lemma_path_len(tasks, path);
    if k >= deps.len() {
        assert(out.take(out.len() as int) =~= out);
    } else {
        lemma_visit(tasks, deps[k], path, out);
        match visit(tasks, deps[k], path, out) {
            Err(_) => {},
            Ok(o1) => {
                lemma_visit_deps(tasks, deps, k + 1, path, o1);
                match visit_deps(tasks, deps, k + 1, path, o1) {
                    Err(_) => {},
                    Ok(o) => {
                        assert(o.take(out.len() as int) =~= out) by {
                            assert(o.take(out.len() as int) =~= o.take(o1.len() as int).take(
                                out.len() as int,
                            ));
                        }
                        assert forall|d: int| k <= d < deps.len() implies placed(
                            tasks,
                            o,
                            #[trigger] deps[d],
                        ) by {
                            if d == k {
                                let j = choose|j: int|
                                    0 <= j < o1.len() && tasks[o1[j] as int].name == deps[k];
                                assert(o[j] == o.take(o1.len() as int)[j]);
                            }
                        }
                        assert forall|j: int| out.len() <= j < o.len() implies !path.contains(
                            tasks[o[j] as int].name,
                        ) by {
                            if j < o1.len() {
                                assert(o[j] == o.take(o1.len() as int)[j]);
                            }
                        }
                    },
                }
            },
        }
    }
}

/// Law of `schedule`: in the order it returns, the named task comes last,
/// no task name occurs twice, and every dependency of a task names a task
/// that comes before it.
pub proof fn lemma_schedule_order(tasks: Seq<TaskView>, name: Seq<char>)
    requires
        tasks.len() <= usize::MAX,
    ensures
        schedule_spec(tasks, name) matches Ok(ix) ==> {
            &&& ix.len() > 0
            &&& in_range(tasks, ix)
            &&& tasks[ix.last() as int].name == name
            &&& distinct_names(tasks, ix)
            &&& deps_first(tasks, ix)
        },
{
    let e: Seq<usize> = seq![];
    assert(path_ok(tasks, seq![]));
    lemma_visit(tasks, name, seq![], e);
    match schedule_spec(tasks, name) {
        Err(_) => {},
        Ok(ix) => {
            assert(!placed(tasks, e, name));
            lemma_find_task_from(tasks, name, 0);
            let i = find_task(tasks, name)->0;
            let p2: Seq<Seq<char>> = seq![name];
            assert(seq![].push(name) =~= p2);
            assert(path_ok(tasks, p2)) by {
                assert(tasks.map_values(|t: TaskView| t.name)[i] == name);
            }
            match visit_deps(tasks, tasks[i].deps, 0, p2, e) {
                Err(_) => {},
                Ok(o1) => {
                    assert(ix == o1.push(i as usize));
                },
            }
        },
    }
}

// ---------------------------------------------------------------------------
// Laws of parsing
// ---------------------------------------------------------------------------

/// What every task that `parse` returns satisfies.
pub open spec fn task_ok(t: TaskView) -> bool {
    &&& valid_name(t.name)
    &&& t.replicas >= 1
    &&& !(t.live && t.replicas > 1)
    &&& (t.gpus > 0 ==> t.image is Some)
    &&& (t.script.len() > 0 || t.deps.len() > 0)
}

/// No two tasks share a name.
pub open spec fn unique_names(ts: Seq<TaskView>) -> bool {
    forall|a: int, b: int| 0 <= a < b < ts.len() ==> ts[a].name != ts[b].name
}

/// A task as `finish_spec` keeps it: a valid name, and a body or
/// dependencies.
pub open spec fn read_ok(t: TaskView) -> bool {
    valid_name(t.name) && (t.script.len() > 0 || t.deps.len() > 0)
}

/// What holds of the reader's state between lines, `dv` being the variables
/// of the `.env` file.
pub open spec fn state_ok(st: ParseState, dv: Seq<(Seq<char>, Seq<char>)>) -> bool {
    &&& forall|i: int| 0 <= i < st.tasks.len() ==> read_ok(#[trigger] st.tasks[i])
    &&& unique_names(st.tasks)
    &&& st.own.len() == st.tasks.len()
    &&& st.defaults.replicas >= 1
    &&& dv.is_prefix_of(st.defaults.env)
    &&& (st.cur matches Some(c) ==> valid_name(c.0.name))
}

proof fn lemma_set_attr(t: TaskView, k: Seq<char>, v: Seq<char>, n: nat)
    ensures
        set_attr(t, k, v, n) matches Ok(t2) ==> t2.name == t.name && t2.deps == t.deps && t2.script
            == t.script && t2.env == t.env && (t.replicas >= 1 ==> t2.replicas >= 1),
{
}

proof fn lemma_prefix_push(dv: Seq<(Seq<char>, Seq<char>)>, env: Seq<(Seq<char>, Seq<char>)>, x: (Seq<char>, Seq<char>))
    requires
        dv.is_prefix_of(env),
    ensures
        dv.is_prefix_of(env.push(x)),
{
    assert(env.push(x).subrange(0, dv.len() as int) =~= env.subrange(0, dv.len() as int));
}

proof fn lemma_prefix_trans(a: Seq<(Seq<char>, Seq<char>)>, b: Seq<(Seq<char>, Seq<char>)>, c: Seq<(Seq<char>, Seq<char>)>)
    requires
        a.is_prefix_of(b),
        b.is_prefix_of(c),
    ensures
        a.is_prefix_of(c),
{
    assert(c.subrange(0, a.len() as int) =~= c.subrange(0, b.len() as int).subrange(0, a.len() as int));
}

proof fn lemma_apply_attrs(t: TaskView, attrs: Seq<(Seq<char>, Seq<char>, nat)>, i: int)
    ensures
        apply_attrs(t, attrs, i) matches Ok(t2) ==> t2.name == t.name && t2.deps == t.deps
            && t2.script == t.script && t.env.is_prefix_of(t2.env) && (t.replicas >= 1
            ==> t2.replicas >= 1),
    decreases attrs.len() - i,
{
    if 0 <= i < attrs.len() {
        let a = attrs[i];
        if env_key(a.0) {
            let t1 = TaskView { env: t.env.push((a.0, a.1)), ..t };
            lemma_apply_attrs(t1, attrs, i + 1);
            assert(t.env.is_prefix_of(t.env));
            lemma_prefix_push(t.env, t.env, (a.0, a.1));
            match apply_attrs(t1, attrs, i + 1) {
                Ok(t2) => lemma_prefix_trans(t.env, t1.env, t2.env),
                Err(_) => {},
            }
        } else {
            lemma_set_attr(t, a.0, a.1, a.2);
            match set_attr(t, a.0, a.1, a.2) {
                Ok(t2) => lemma_apply_attrs(t2, attrs, i + 1),
                Err(_) => {},
            }
        }
    } else {
        assert(t.env.is_prefix_of(t.env));
    }
}

proof fn lemma_add_attrs(st: ParseState, parts: Seq<Seq<char>>, i: int, n: nat)
    ensures
        add_attrs(st, parts, i, n) matches Ok(st2) ==> st2.tasks == st.tasks && st2.own == st.own
            && st2.defaults == st.defaults && st2.cur == st.cur,
    decreases parts.len() - i,
{
    if 0 <= i < parts.len() {
        match split_once_char(parts[i], ':') {
            None => {},
            Some(kv) => match expand(unquote(kv.1), st.defaults.env, n) {
                Err(_) => {},
                Ok(val) => lemma_add_attrs(
                    ParseState { attrs: st.attrs.push((trim(kv.0), val, n)), ..st },
                    parts,
                    i + 1,
                    n,
                ),
            },
        }
    }
}

proof fn lemma_finish(
    tasks: Seq<TaskView>,
    t: TaskView,
    lines: Seq<Seq<char>>,
    hn: nat,
    own: Seq<(Seq<char>, Seq<char>, nat)>,
)
    requires
        forall|i: int| 0 <= i < tasks.len() ==> read_ok(#[trigger] tasks[i]),
        unique_names(tasks),
        valid_name(t.name),
    ensures
        finish_spec(tasks, t, lines, hn, own) matches Ok(ts) ==> (forall|i: int|
            0 <= i < ts.len() ==> read_ok(#[trigger] ts[i])) && unique_names(ts) && ts.len()
            == tasks.len() + 1,
{
    match finish_spec(tasks, t, lines, hn, own) {
        Err(_) => {},
        Ok(ts) => {
            lemma_find_task_from(tasks, t.name, 0);
            assert forall|i: int| 0 <= i < ts.len() implies read_ok(#[trigger] ts[i]) by {
                if i < tasks.len() {
                    assert(ts[i] == tasks[i]);
                }
            }
            assert forall|a: int, b: int| 0 <= a < b < ts.len() implies ts[a].name != ts[b].name by {
                assert(ts[a] == tasks[a]);
                if b < tasks.len() {
                    assert(ts[b] == tasks[b]);
                }
            }
        },
    }
}

proof fn lemma_close(st: ParseState, dv: Seq<(Seq<char>, Seq<char>)>)
    requires
        state_ok(st, dv),
    ensures
        close_current(st) matches Ok(st2) ==> state_ok(st2, dv) && st2.cur is None && st2.attrs
            == st.attrs,
{
    match st.cur {
        None => {},
        Some(c) => lemma_finish(st.tasks, c.0, c.1, c.2, st.held),
    }
}

proof fn lemma_handle_line(st: ParseState, trimmed: Seq<char>, n: nat, dv: Seq<(Seq<char>, Seq<char>)>)
    requires
        state_ok(st, dv),
        st.cur is None,
    ensures
        handle_line(st, trimmed, n) matches Ok(st2) ==> state_ok(st2, dv),
{
    if trimmed.len() == 0 || trimmed[0] == '#' {
    } else if trimmed[0] == '[' {
        let inner = trimmed.drop_first();
        if inner.len() > 0 && inner.last() == ']' {
            lemma_add_attrs(st, split_char(inner.drop_last(), ','), 0, n);
        }
    } else {
        match split_once(trimmed, seq![':', '=']) {
            Some(kv) => {
                match expand(unquote(kv.1), st.defaults.env, n) {
                    Err(_) => {},
                    Ok(val) => {
                        lemma_set_attr(st.defaults, trim(kv.0), val, n);
                        lemma_prefix_push(dv, st.defaults.env, (trim(kv.0), val));
                    },
                }
            },
            None => match split_once_char(trimmed, ':') {
                Some(nd) => {
                    let name = trim(nd.0);
                    let t0 = TaskView { name, deps: st.defaults.deps + words(nd.1), ..st.defaults };
                    lemma_apply_attrs(t0, st.attrs, 0);
                },
                None => {},
            },
        }
    }
}

proof fn lemma_step(st: ParseState, raw: Seq<char>, n: nat, dv: Seq<(Seq<char>, Seq<char>)>)
    requires
        state_ok(st, dv),
    ensures
        step(st, raw, n) matches Ok(st2) ==> state_ok(st2, dv),
{
    let line = trim_end(raw);
    let indented = raw.len() > 0 && (raw[0] == ' ' || raw[0] == '\t');
    if st.cur is Some && (indented || trim(line).len() == 0) {
    } else {
        lemma_close(st, dv);
        match close_current(st) {
            Err(_) => {},
            Ok(st1) => lemma_handle_line(st1, trim(line), n, dv),
        }
    }
}

proof fn lemma_process(ls: Seq<Seq<char>>, i: int, st: ParseState, dv: Seq<(Seq<char>, Seq<char>)>)
    requires
        state_ok(st, dv),
    ensures
        process(ls, i, st) matches Ok(st2) ==> state_ok(st2, dv),
    decreases ls.len() - i,
{
    if 0 <= i < ls.len() {
        lemma_step(st, ls[i], (i + 1) as nat, dv);
        match step(st, ls[i], (i + 1) as nat) {
            Err(_) => {},
            Ok(st2) => lemma_process(ls, i + 1, st2, dv),
        }
    }
}

/// What each task of `parse` satisfies besides `task_ok`: its environment
/// starts with the variables of the `.env` file.
proof fn lemma_settle_from(
    tasks: Seq<TaskView>,
    own: Seq<Seq<(Seq<char>, Seq<char>, nat)>>,
    d: TaskView,
    k: int,
    acc: Seq<TaskView>,
    dv: Seq<(Seq<char>, Seq<char>)>,
)
    requires
        0 <= k <= tasks.len(),
        own.len() == tasks.len(),
        forall|i: int| 0 <= i < tasks.len() ==> read_ok(#[trigger] tasks[i]),
        d.replicas >= 1,
        dv.is_prefix_of(d.env),
        acc.len() == k,
        forall|i: int|
            0 <= i < k ==> task_ok(#[trigger] acc[i]) && acc[i].name == tasks[i].name
                && dv.is_prefix_of(acc[i].env),
    ensures
        settle_from(tasks, own, d, k, acc) matches Ok(ts) ==> {
            &&& ts.len() == tasks.len()
            &&& forall|i: int|
                0 <= i < ts.len() ==> task_ok(#[trigger] ts[i]) && ts[i].name == tasks[i].name
                    && dv.is_prefix_of(ts[i].env)
        },
    decreases tasks.len() - k,
{
    if k < tasks.len() {
        let t = tasks[k];
        let base = TaskView { name: t.name, deps: t.deps, script: t.script, ..d };
        lemma_apply_attrs(base, own[k], 0);
        assert(read_ok(tasks[k]));
        match settle(t, own[k], d) {
            Err(_) => {},
            Ok(x) => {
                let t2 = apply_attrs(base, own[k], 0)->Ok_0;
                assert(x == t2);
                lemma_prefix_trans(dv, d.env, x.env);
                let acc2 = acc.push(x);
                assert forall|i: int| 0 <= i < k + 1 implies task_ok(#[trigger] acc2[i])
                    && acc2[i].name == tasks[i].name && dv.is_prefix_of(acc2[i].env) by {
                    if i < k {
                        assert(acc2[i] == acc[i]);
                    }
                }
                lemma_settle_from(tasks, own, d, k + 1, acc2, dv);
            },
        }
    }
}

proof fn lemma_first_unschedulable(ts: Seq<TaskView>, k: int)
    requires
        0 <= k,
        first_unschedulable(ts, k) is None,
    ensures
        forall|i: int| k <= i < ts.len() ==> schedule_spec(ts, #[trigger] ts[i].name) is Ok,
    decreases ts.len() - k,
{
    if k < ts.len() {
        lemma_first_unschedulable(ts, k + 1);
    }
}

/// What `close_current` leaves after the last line: the same number of
/// attribute lists as tasks.
pub proof fn lemma_read_all(text: Seq<char>, dotenv: Seq<(Seq<char>, Seq<char>)>)
    ensures
        process(lines(text), 0, initial_state(dotenv)) matches Ok(st) ==> (close_current(st) matches Ok(
            st2,
        ) ==> state_ok(st2, dotenv)),
{
    let init = initial_state(dotenv);
    assert(dotenv.is_prefix_of(init.defaults.env)) by {
        assert(dotenv.subrange(0, dotenv.len() as int) =~= dotenv);
    }
    assert(state_ok(init, dotenv));
    lemma_process(lines(text), 0, init, dotenv);
    match process(lines(text), 0, init) {
        Err(_) => {},
        Ok(st) => lemma_close(st, dotenv),
    }
}

/// Law of `parse`: the tasks of an accepted exfile are not none, have
/// distinct valid names, at least one replica each, a body or dependencies,
/// no live workspace with several replicas, no GPUs without an image, an
/// environment that starts with the variables of the `.env` file, and each
/// of them can be scheduled.
pub proof fn lemma_parse_ok(text: Seq<char>, dotenv: Seq<(Seq<char>, Seq<char>)>)
    ensures
        parse_spec(text, dotenv) matches Ok(ts) ==> {
            &&& ts.len() > 0
            &&& forall|i: int| 0 <= i < ts.len() ==> task_ok(#[trigger] ts[i])
            &&& unique_names(ts)
            &&& forall|i: int| 0 <= i < ts.len() ==> dotenv.is_prefix_of(#[trigger] ts[i].env)
            &&& forall|i: int| 0 <= i < ts.len() ==> schedule_spec(ts, #[trigger] ts[i].name) is Ok
        },
{
    let init = initial_state(dotenv);
    lemma_read_all(text, dotenv);
    match process(lines(text), 0, init) {
        Err(_) => {},
        Ok(st) => {
            match close_current(st) {
                Err(_) => {},
                Ok(st2) => {
                    lemma_settle_from(st2.tasks, st2.own, st2.defaults, 0, seq![], dotenv);
                    match settle_from(st2.tasks, st2.own, st2.defaults, 0, seq![]) {
                        Err(_) => {},
                        Ok(ts) => {
                            assert forall|a: int, b: int| 0 <= a < b < ts.len() implies ts[a].name
                                != ts[b].name by {
                                assert(ts[a].name == st2.tasks[a].name);
                                assert(ts[b].name == st2.tasks[b].name);
                            }
                            assert forall|i: int| 0 <= i < ts.len() implies dotenv.is_prefix_of(
                                #[trigger] ts[i].env,
                            ) by {
                                assert(task_ok(ts[i]));
                            }
                            if st2.attrs.len() == 0 && ts.len() > 0 && first_unschedulable(ts, 0)
                                is None {
                                lemma_first_unschedulable(ts, 0);
                            }
                        },
                    }
                },
            }
        },
    }
}

/// A line of a `.env` file as a variable: trimmed, without a leading
/// `export `, skipped when empty, a comment or without `=`; the key is
/// trimmed and the value unquoted.
pub open spec fn dotenv_line(l: Seq<char>) -> Option<(Seq<char>, Seq<char>)> {
    let t = trim(l);
    let u = if starts_with(t, "export "@) {
        t.subrange("export "@.len() as int, t.len() as int)
    } else {
        t
    };
    if u.len() == 0 || u[0] == '#' {
        None
    } else {
        match split_once_char(u, '=') {
            Some((k, v)) => Some((trim(k), unquote(v))),
            None => None,
        }
    }
}

/// The variables of the lines `ls` of a `.env` file, in order.
pub open spec fn dotenv_vars(ls: Seq<Seq<char>>) -> Seq<(Seq<char>, Seq<char>)>
    decreases ls.len(),
{
    if ls.len() == 0 {
        seq![]
    } else {
        dotenv_vars(ls.drop_last()) + match dotenv_line(ls.last()) {
            Some(p) => seq![p],
            None => seq![],
        }
    }
}

/// Law of `.env` lines: a line `key=value` with no `=` in its key, no
/// whitespace at either end, not a comment and without `export `, splits at
/// its first `=`: the key trimmed, and all the rest, `=` signs included,
/// unquoted as the value.
pub proof fn lemma_dotenv_first_eq(key: Seq<char>, val: Seq<char>)
    requires
        key.len() > 0,
        !is_ws(key[0]),
        key[0] != '#',
        forall|j: int| 0 <= j < key.len() ==> key[j] != '=',
        val.len() == 0 || !is_ws(val.last()),
        !starts_with(key + seq!['='] + val, "export "@),
    ensures
        dotenv_line(key + seq!['='] + val) == Some((trim(key), unquote(val))),
{
    let l = key + seq!['='] + val;
    assert(l[0] == key[0]);
    assert(l.last() == if val.len() == 0 { '=' } else { val.last() });
    lemma_trim_plain(l);
    lemma_find_char_from(l, '=', 0);
    assert(l[key.len() as int] == '=');
    assert forall|j: int| 0 <= j < key.len() implies l[j] != '=' by {
        assert(l[j] == key[j]);
    }
    assert(find_char(l, '=') == Some(key.len() as int));
    assert(l.subrange(0, key.len() as int) =~= key);
    assert(l.subrange(key.len() as int + 1, l.len() as int) =~= val);
}

/// Law of `.env` lines: the key of a variable holds no `=` and is trimmed.
pub proof fn lemma_dotenv_key(l: Seq<char>)
    ensures
        dotenv_line(l) matches Some((k, v)) ==> (forall|j: int| 0 <= j < k.len() ==> k[j] != '=')
            && trim(k) == k,
{
    let t = trim(l);
    let u = if starts_with(t, "export "@) {
        t.subrange("export "@.len() as int, t.len() as int)
    } else {
        t
    };
    if u.len() > 0 && u[0] != '#' {
        lemma_find_char_from(u, '=', 0);
        match find_char(u, '=') {
            Some(i) => {
                let k0 = u.subrange(0, i);
                lemma_trim_start(k0);
                lemma_trim_end(trim_start(k0));
                let k = trim(k0);
                let ts = trim_start(k0);
                assert forall|j: int| 0 <= j < k.len() implies k[j] != '=' by {
                    assert(k[j] == ts[j]);
                    assert(ts[j] == k0[k0.len() - ts.len() + j]);
                }
                lemma_trim_idem(k0);
            },
            None => {},
        }
    }
}

/// Trimming twice is trimming once.
pub proof fn lemma_trim_idem(s: Seq<char>)
    ensures
        trim(trim(s)) == trim(s),
{
    lemma_trim_start(s);
    let a = trim_start(s);
    lemma_trim_end(a);
    let b = trim_end(a);
    if b.len() > 0 {
        assert(b[0] == a[0]);
        lemma_trim_plain(b);
    } else {
        assert(trim(b) =~= b);
    }
}

/// Law of `.env` files: no variable read from one has `=` in its key.
pub proof fn lemma_dotenv_keys(ls: Seq<Seq<char>>)
    ensures
        forall|i: int, j: int|
            0 <= i < dotenv_vars(ls).len() && 0 <= j < dotenv_vars(ls)[i].0.len()
                ==> #[trigger] dotenv_vars(ls)[i].0[j] != '=',
    decreases ls.len(),
{
    if ls.len() > 0 {
        lemma_dotenv_keys(ls.drop_last());
        lemma_dotenv_key(ls.last());
        let a = dotenv_vars(ls.drop_last());
        assert forall|i: int, j: int|
            0 <= i < dotenv_vars(ls).len() && 0 <= j < dotenv_vars(ls)[i].0.len()
                implies #[trigger] dotenv_vars(ls)[i].0[j] != '=' by {
            if i < a.len() {
                assert(dotenv_vars(ls)[i] == a[i]);
                assert(a[i].0[j] != '=');
            }
        }
    }
}

/// The variables a `.env` file defines.
#[verifier::rlimit(40)]
pub fn parse_dotenv(text: &str) -> (r: Vec<(String, String)>)
    ensures
        r.deep_view() == dotenv_vars(lines(text@)),
{
    let c = chars_of(text);
    let ls = split_lines(c.as_slice());
    let ex = chars_of("export ");
    let mut r: Vec<(String, String)> = Vec::new();
    let mut i: usize = 0;
    while i < ls.len()
        invariant
            i <= ls@.len(),
            ls.deep_view() == lines(text@),
            c@ == text@,
            ex@ == "export "@,
            r.deep_view() == dotenv_vars(ls.deep_view().take(i as int)),
        decreases ls@.len() - i,
    {
        let l = &ls[i];
        assert(l@ == ls.deep_view()[i as int]);
        let (a, b) = trim_range(l.as_slice(), 0, l.len());
        assert(l@.subrange(0, l@.len() as int) =~= l@);
        let ghost t = trim(l@);
        let mut lo = a;
        if starts_with_in(l.as_slice(), a, b, ex.as_slice()) {
            lo = a + ex.len();
            assert(t.subrange(ex@.len() as int, t.len() as int) =~= l@.subrange(lo as int, b as int));
        }
        let ghost u = l@.subrange(lo as int, b as int);
        let ghost before = r.deep_view();
        if lo < b && l[lo] != '#' {
            if let Some(k) = find_char_in(l.as_slice(), lo, b, '=') {
                let (ka, kb) = trim_range(l.as_slice(), lo, k);
                let key = copy_range(l.as_slice(), ka, kb);
                let val = unquote_in(l.as_slice(), k + 1, b);
                assert(u.subrange(0, k - lo) =~= l@.subrange(lo as int, k as int));
                assert(u.subrange(k - lo + 1, u.len() as int) =~= l@.subrange(k + 1, b as int));
                r.push((string_of(key.as_slice()), string_of(val.as_slice())));
                assert(r.deep_view() =~= before + seq![(key@, val@)]);
            } else {
                assert(r.deep_view() =~= before + seq![]);
            }
        } else {
            assert(r.deep_view() =~= before + seq![]);
        }
        proof {
            let pre = ls.deep_view().take(i + 1);
            assert(pre.drop_last() =~= ls.deep_view().take(i as int));
            assert(pre.last() == l@);
        }
        i += 1;
    }
    assert(ls.deep_view().take(ls@.len() as int) =~= ls.deep_view());
    r
}

/// How the exfile of a directory is found: the file `exfile`, or else the
/// one file named `<something>.exfile`; several of those are ambiguous.
#[derive(Debug)]
pub enum Pick {
    /// The file `exfile`.
    Plain,
    /// The one `*.exfile` file.
    Named(String),
    /// Several `*.exfile` files, in order.
    Ambiguous(Vec<String>),
    /// None here: look in the parent directory.
    Nothing,
}

/// A name of the form `<something>.exfile`.
pub open spec fn named_exfile(n: Seq<char>) -> bool {
    ends_with(n, ".exfile"@) && n.len() > ".exfile"@.len()
}

/// The names among `names` that name an exfile, in order.
pub open spec fn exfile_names(names: Seq<Seq<char>>) -> Seq<Seq<char>>
    decreases names.len(),
{
    if names.len() == 0 {
        seq![]
    } else {
        exfile_names(names.drop_last()) + if named_exfile(names.last()) {
            seq![names.last()]
        } else {
            seq![]
        }
    }
}

/// Which exfile a directory holds, given whether it has a file `exfile` and
/// the names of its other files.
pub fn pick_exfile(plain: bool, names: &[String]) -> (r: Pick)
    ensures
        plain ==> r is Plain,
        !plain ==> match r {
            Pick::Plain => false,
            Pick::Named(n) => exfile_names(names.deep_view()) == seq![n@],
            Pick::Ambiguous(v) => sorted_seqs(v.deep_view()) && v@.len() >= 2
                && v.deep_view().to_multiset() == exfile_names(names.deep_view()).to_multiset(),
            Pick::Nothing => exfile_names(names.deep_view()).len() == 0,
        },
{
    if plain {
        return Pick::Plain;
    }
    let suffix = chars_of(".exfile");
    let mut found: Vec<String> = Vec::new();
    let mut i: usize = 0;
    while i < names.len()
        invariant
            i <= names@.len(),
            suffix@ == ".exfile"@,
            found.deep_view() == exfile_names(names.deep_view().take(i as int)),
        decreases names@.len() - i,
    {
        let n = chars_of(names[i].as_str());
        assert(n@ == names.deep_view()[i as int]);
        let ghost before = found.deep_view();
        let ok = n.len() > suffix.len() && ends_with_in(n.as_slice(), suffix.as_slice());
        if ok {
            found.push(names[i].clone());
            assert(found.deep_view() =~= before + seq![names.deep_view()[i as int]]);
        } else {
            assert(found.deep_view() =~= before + seq![]);
        }
        proof {
            let pre = names.deep_view().take(i + 1);
            assert(pre.drop_last() =~= names.deep_view().take(i as int));
        }
        i += 1;
    }
    assert(names.deep_view().take(names@.len() as int) =~= names.deep_view());
    if found.len() == 0 {
        return Pick::Nothing;
    }
    if found.len() == 1 {
        let n = found[0].clone();
        assert(found.deep_view() =~= seq![n@]);
        return Pick::Named(n);
    }
    let ghost fv = found.deep_view();
    let sorted = sort_strings(found);
    proof {
        broadcast use vstd::seq_lib::group_to_multiset_ensures;
        assert(sorted.deep_view().to_multiset().len() == fv.to_multiset().len());
        assert(sorted.deep_view().len() == sorted@.len());
    }
    Pick::Ambiguous(sorted)
}

} // verus!
