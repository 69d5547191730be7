//! A cell: the processes that run one task's ranks on one machine. This
//! module decides what is run (the command line of a rank, its environment,
//! the `docker run` arguments, the cgroup limits) and how the ranks' exits,
//! an interrupt and a deadline combine into the job's exit code.
use vstd::prelude::*;
use crate::exfile::{Task, TaskView};
use crate::text::{
    base_name, base_name_of, chars_of, copy_range, dec, eq_str, lines, push_dec, push_range,
    push_str, split_lines, starts_with, string_of, string_of_str, words, words_in,
};

verus! {

/// Where the script file is mounted inside a container.
pub const CELL: &'static str = "/.exzet-cell";

/// One task's ranks `rank0 .. rank0 + ranks` on this machine, run in `dir`
/// as part of job `id`; `main` is the address of the machine of rank 0, and
/// `pipe` says whether output is captured rather than inherited.
pub struct Job<'a> {
    pub task: &'a Task,
    pub id: &'a str,
    pub dir: &'a str,
    pub rank0: u32,
    pub ranks: u32,
    pub main: &'a str,
    pub pipe: bool,
}

/// On Linux, cpu and memory limits are off unless exzed runs as root on a
/// machine with cgroup v2 controllers.
pub fn limits_off(root: bool, controllers: bool) -> (r: bool)
    ensures
        r == (!root || !controllers),
{
    !root || !controllers
}

/// `s` without every leading `#!` (`trim_start_matches("#!")`).
pub open spec fn strip_hashbang(s: Seq<char>) -> Seq<char>
    decreases s.len(),
{
    if s.len() >= 2 && s[0] == '#' && s[1] == '!' {
        strip_hashbang(s.subrange(2, s.len() as int))
    } else {
        s
    }
}

/// The first word at or after `i` that is not a path to `env`.
pub open spec fn first_non_env(toks: Seq<Seq<char>>, i: int) -> int
    decreases toks.len() - i,
{
    if i < 0 || i >= toks.len() {
        toks.len() as int
    } else if base_name(toks[i]) == "env"@ {
        first_non_env(toks, i + 1)
    } else {
        i
    }
}

/// The interpreter command of a `#!` line: its words, where a leading
/// `env` is dropped and the interpreter is named without its directory;
/// `sh` when nothing is left.
pub open spec fn interp_spec(line: Seq<char>) -> Seq<Seq<char>> {
    let toks = words(strip_hashbang(line));
    let k = first_non_env(toks, 0);
    if 0 <= k < toks.len() {
        seq![base_name(toks[k])] + toks.subrange(k + 1, toks.len() as int)
    } else {
        seq!["sh"@]
    }
}

proof fn lemma_first_non_env(toks: Seq<Seq<char>>, i: int)
    requires
        0 <= i <= toks.len(),
    ensures
        i <= first_non_env(toks, i) <= toks.len(),
        first_non_env(toks, i) < toks.len() ==> base_name(toks[first_non_env(toks, i)]) != "env"@,
    decreases toks.len() - i,
{
    if i < toks.len() && base_name(toks[i]) == "env"@ {
        lemma_first_non_env(toks, i + 1);
    }
}

/// The interpreter command of a `#!` line.
pub fn interp(line: &str) -> (r: Vec<String>)
    ensures
        r.deep_view() == interp_spec(line@),
{
    let c = chars_of(line);
    let mut lo: usize = 0;
    assert(c@.subrange(0, c@.len() as int) =~= c@);
    while lo < c.len() && c.len() - lo >= 2 && c[lo] == '#' && c[lo + 1] == '!'
        invariant
            lo <= c@.len(),
            c@ == line@,
            strip_hashbang(c@) == strip_hashbang(c@.subrange(lo as int, c@.len() as int)),
        decreases c@.len() - lo,
    {
        assert(c@.subrange(lo as int, c@.len() as int).subrange(2, c@.len() - lo) =~= c@.subrange(
            lo + 2,
            c@.len() as int,
        ));
        lo += 2;
    }
    assert(strip_hashbang(c@.subrange(lo as int, c@.len() as int)) == c@.subrange(
        lo as int,
        c@.len() as int,
    ));
    let ws = words_in(c.as_slice(), lo, c.len());
    let ghost toks = words(strip_hashbang(line@));
    let ghost k = first_non_env(toks, 0);
    proof {
        lemma_first_non_env(toks, 0);
    }
    let mut v: Vec<String> = Vec::new();
    let mut i: usize = 0;
    while i < ws.len()
        invariant
            i <= ws@.len(),
            ws@.len() == toks.len(),
            c@ == line@,
            toks == words(c@.subrange(lo as int, c@.len() as int)),
            forall|j: int|
                0 <= j < ws@.len() ==> (#[trigger] ws@[j]).0 <= ws@[j].1 <= c@.len()
                    && c@.subrange(ws@[j].0 as int, ws@[j].1 as int) == toks[j],
            k == first_non_env(toks, 0),
            0 <= k <= toks.len(),
            v@.len() == 0 ==> first_non_env(toks, i as int) == k,
            v@.len() > 0 ==> k < i && v.deep_view() == seq![base_name(toks[k])] + toks.subrange(
                k + 1,
                i as int,
            ),
        decreases ws@.len() - i,
    {
        let (a, b) = ws[i];
        let t = copy_range(c.as_slice(), a, b);
        let base = base_name_of(t.as_slice());
        let ghost before = v.deep_view();
        if v.len() == 0 {
            if !eq_str(base.as_slice(), "env") {
                v.push(string_of(base.as_slice()));
                assert(v.deep_view() =~= seq![base_name(toks[k])] + toks.subrange(k + 1, i + 1));
            }
        } else {
            v.push(string_of(t.as_slice()));
            assert(v.deep_view() =~= before.push(toks[i as int]));
            assert(toks.subrange(k + 1, i + 1) =~= toks.subrange(k + 1, i as int).push(
                toks[i as int],
            ));
        }
        i += 1;
    }
    if v.len() == 0 {
        v.push(string_of_str("sh"));
        assert(v.deep_view() =~= seq!["sh"@]);
    } else {
        assert(toks.subrange(k + 1, toks.len() as int) == toks.subrange(k + 1, i as int));
    }
    v
}

/// The first line of `s`, or nothing when `s` has none.
pub open spec fn first_line(s: Seq<char>) -> Seq<char> {
    if lines(s).len() > 0 {
        lines(s)[0]
    } else {
        seq![]
    }
}

/// Which script file a task runs from, by its extension: a `#!` script
/// runs from a file named without one; on Windows, a plain script with no
/// shell and no image runs from a PowerShell file; others need no file.
pub open spec fn script_ext_spec(t: TaskView, windows: bool) -> Option<Seq<char>> {
    if starts_with(t.script, "#!"@) {
        Some(""@)
    } else if t.shell.len() > 0 {
        None
    } else if t.image is Some || !windows {
        None
    } else {
        Some(".ps1"@)
    }
}

/// The extension of the script file a task needs, if it needs one.
pub fn script_ext(t: &Task, windows: bool) -> (r: Option<&'static str>)
    ensures
        match r {
            Some(e) => script_ext_spec(t@, windows) == Some(e@),
            None => script_ext_spec(t@, windows) is None,
        },
{
    let s = chars_of(t.script.as_str());
    let hashbang = s.len() >= 2 && s[0] == '#' && s[1] == '!';
    proof {
        reveal_strlit("#!");
        assert("#!"@ =~= seq!['#', '!']);
        if s@.len() >= 2 {
            assert(s@.subrange(0, 2) =~= seq![s@[0], s@[1]]);
        }
        assert(hashbang == starts_with(t@.script, "#!"@));
    }
    if hashbang {
        Some("")
    } else if chars_of(t.shell.as_str()).len() > 0 {
        None
    } else if t.image.is_some() || !windows {
        None
    } else {
        Some(".ps1")
    }
}

/// Whether a task's script starts with `#!`.
fn is_hashbang(t: &Task) -> (r: bool)
    ensures
        r == starts_with(t@.script, "#!"@),
{
    let s = chars_of(t.script.as_str());
    let hashbang = s.len() >= 2 && s[0] == '#' && s[1] == '!';
    proof {
        reveal_strlit("#!");
        assert("#!"@ =~= seq!['#', '!']);
        if s@.len() >= 2 {
            assert(s@.subrange(0, 2) =~= seq![s@[0], s@[1]]);
        }
    }
    hashbang
}

/// The whitespace-separated words of `s`, as strings.
pub fn split_words(s: &str) -> (r: Vec<String>)
    ensures
        r.deep_view() == words(s@),
{
    let c = chars_of(s);
    let ws = words_in(c.as_slice(), 0, c.len());
    assert(c@.subrange(0, c@.len() as int) =~= c@);
    let mut r: Vec<String> = Vec::new();
    let mut i: usize = 0;
    while i < ws.len()
        invariant
            i <= ws@.len(),
            c@ == s@,
            ws@.len() == words(s@).len(),
            forall|j: int|
                0 <= j < ws@.len() ==> (#[trigger] ws@[j]).0 <= ws@[j].1 <= c@.len()
                    && c@.subrange(ws@[j].0 as int, ws@[j].1 as int) == words(s@)[j],
            r.deep_view() == words(s@).subrange(0, i as int),
        decreases ws@.len() - i,
    {
        let (a, b) = ws[i];
        let w = copy_range(c.as_slice(), a, b);
        r.push(string_of(w.as_slice()));
        assert(words(s@).subrange(0, i + 1) =~= words(s@).subrange(0, i as int).push(words(s@)[i as int]));
        assert(r.deep_view() =~= words(s@).subrange(0, i + 1));
        i += 1;
    }
    assert(words(s@).subrange(0, ws@.len() as int) =~= words(s@));
    r
}

/// The command line of a rank: the words before the task's arguments. A
/// `#!` script runs as the mounted script file in a container, through its
/// interpreter on Windows, and as the script file `file` elsewhere; a task
/// with a shell runs the script as the shell's last argument; otherwise
/// `/bin/sh -euc` runs it (with the task's name as `$0`), and on Windows
/// outside a container PowerShell runs the script file `file`.
pub open spec fn invoke_spec(t: TaskView, windows: bool, file: Seq<char>) -> Seq<Seq<char>> {
    let head = if starts_with(t.script, "#!"@) {
        if t.image is Some {
            seq![CELL@]
        } else if windows {
            interp_spec(first_line(t.script)).push(file)
        } else {
            seq![file]
        }
    } else if t.shell.len() > 0 {
        words(t.shell).push(t.script)
    } else if t.image is Some || !windows {
        seq!["/bin/sh"@, "-euc"@, t.script, t.name]
    } else {
        seq!["powershell"@, "-NoProfile"@, "-ExecutionPolicy"@, "Bypass"@, "-File"@, file]
    };
    head + t.args
}

/// The command line of a rank of `t`; `file` is the path of the script
/// file when `script_ext` asks for one.
pub fn invoke(t: &Task, windows: bool, file: &str) -> (r: Vec<String>)
    ensures
        r.deep_view() == invoke_spec(t@, windows, file@),
{
    let mut argv: Vec<String> = Vec::new();
    let shell = chars_of(t.shell.as_str());
    if is_hashbang(t) {
        if t.image.is_some() {
            argv.push(string_of_str(CELL));
        } else if windows {
            let s = chars_of(t.script.as_str());
            let ls = split_lines(s.as_slice());
            let first: String = if ls.len() > 0 {
                string_of(ls[0].as_slice())
            } else {
                String::new()
            };
            proof {
                if ls@.len() > 0 {
                    assert(ls.deep_view()[0] == ls@[0]@);
                }
            }
            argv = interp(first.as_str());
            argv.push(string_of_str(file));
        } else {
            argv.push(string_of_str(file));
        }
    } else if shell.len() > 0 {
        argv = split_words(t.shell.as_str());
        argv.push(t.script.clone());
    } else if t.image.is_some() || !windows {
        argv.push(string_of_str("/bin/sh"));
        argv.push(string_of_str("-euc"));
        argv.push(t.script.clone());
        argv.push(t.name.clone());
    } else {
        argv.push(string_of_str("powershell"));
        argv.push(string_of_str("-NoProfile"));
        argv.push(string_of_str("-ExecutionPolicy"));
        argv.push(string_of_str("Bypass"));
        argv.push(string_of_str("-File"));
        argv.push(string_of_str(file));
    }
    let ghost head = argv.deep_view();
    assert(head == invoke_spec(t@, windows, file@).subrange(0, head.len() as int)) by {
        assert(invoke_spec(t@, windows, file@) =~= head + t@.args);
    }
    let mut i: usize = 0;
    while i < t.args.len()
        invariant
            i <= t.args@.len(),
            argv.deep_view() == head + t@.args.subrange(0, i as int),
        decreases t.args@.len() - i,
    {
        let ghost before = argv.deep_view();
        let a = t.args[i].clone();
        assert(a@ == t@.args[i as int]);
        argv.push(a);
        assert(argv.deep_view() =~= before.push(a@));
        assert(t@.args.subrange(0, i + 1) =~= t@.args.subrange(0, i as int).push(t@.args[i as int]));
        assert(argv.deep_view() =~= head + t@.args.subrange(0, i + 1));
        i += 1;
    }
    assert(t@.args.subrange(0, t@.args.len() as int) =~= t@.args);
    argv
}

/// `a` followed by `b`, as a string.
pub fn concat(a: &str, b: &str) -> (r: String)
    ensures
        r@ == a@ + b@,
{
    let mut v: Vec<char> = Vec::new();
    push_str(&mut v, a);
    push_str(&mut v, b);
    string_of(v.as_slice())
}

/// The decimal numeral of `n`, as a string.
pub fn dec_string(n: u64) -> (r: String)
    ensures
        r@ == dec(n as nat),
{
    let mut v: Vec<char> = Vec::new();
    push_dec(&mut v, n);
    assert(v@ =~= dec(n as nat));
    string_of(v.as_slice())
}

/// `prefix`, then `id`, a `-` and the rank in decimal, then `suffix`.
fn id_rank(prefix: &str, id: &str, rank: u32, suffix: &str) -> (r: String)
    ensures
        r@ == prefix@ + id@ + "-"@ + dec(rank as nat) + suffix@,
{
    let mut v: Vec<char> = Vec::new();
    push_str(&mut v, prefix);
    push_str(&mut v, id);
    push_str(&mut v, "-");
    push_dec(&mut v, rank as u64);
    push_str(&mut v, suffix);
    string_of(v.as_slice())
}

/// The name of a rank's script file in the temporary directory.
pub open spec fn script_name_spec(id: Seq<char>, rank: u32, ext: Seq<char>) -> Seq<char> {
    "exzet-"@ + id + "-"@ + dec(rank as nat) + ext
}

pub fn script_name(id: &str, rank: u32, ext: &str) -> (r: String)
    ensures
        r@ == script_name_spec(id@, rank, ext@),
{
    id_rank("exzet-", id, rank, ext)
}

/// The name of a rank's container.
pub open spec fn container_name_spec(id: Seq<char>, rank: u32) -> Seq<char> {
    "exzet-"@ + id + "-"@ + dec(rank as nat)
}

pub fn container_name(id: &str, rank: u32) -> (r: String)
    ensures
        r@ == container_name_spec(id@, rank),
{
    let r = id_rank("exzet-", id, rank, "");
    proof {
        reveal_strlit("");
        assert(r@ =~= container_name_spec(id@, rank));
    }
    r
}

/// The name of a rank's cgroup under the exzet cgroup.
pub open spec fn cgroup_name_spec(id: Seq<char>, rank: u32) -> Seq<char> {
    id + "-"@ + dec(rank as nat)
}

pub fn cgroup_name(id: &str, rank: u32) -> (r: String)
    ensures
        r@ == cgroup_name_spec(id@, rank),
{
    let r = id_rank("", id, rank, "");
    proof {
        reveal_strlit("");
        assert(r@ =~= cgroup_name_spec(id@, rank));
    }
    r
}

/// What `cpu.max` is set to for a limit of `cpus` whole CPUs: that many
/// 100 ms slices per 100 ms period.
pub open spec fn cpu_max_spec(cpus: u32) -> Seq<char> {
    dec(cpus as nat * 100000) + " 100000"@
}

pub fn cpu_max(cpus: u32) -> (r: String)
    ensures
        r@ == cpu_max_spec(cpus),
{
    let mut v: Vec<char> = Vec::new();
    push_dec(&mut v, cpus as u64 * 100000);
    push_str(&mut v, " 100000");
    string_of(v.as_slice())
}

/// The variables that tell a rank where it stands: the job, its rank, the
/// number of ranks, and the address of rank 0's machine.
pub open spec fn rank_env_spec(id: Seq<char>, rank: u32, world: u32, main: Seq<char>) -> Seq<
    (Seq<char>, Seq<char>),
> {
    seq![
        ("EXZET_JOB"@, id),
        ("EXZET_RANK"@, dec(rank as nat)),
        ("EXZET_WORLD"@, dec(world as nat)),
        ("EXZET_MAIN"@, main),
    ]
}

pub fn rank_env(j: &Job, rank: u32) -> (r: Vec<(String, String)>)
    ensures
        r.deep_view() == rank_env_spec(j.id@, rank, j.task.replicas, j.main@),
{
    let mut r: Vec<(String, String)> = Vec::new();
    r.push((string_of_str("EXZET_JOB"), string_of_str(j.id)));
    r.push((string_of_str("EXZET_RANK"), dec_string(rank as u64)));
    r.push((string_of_str("EXZET_WORLD"), dec_string(j.task.replicas as u64)));
    r.push((string_of_str("EXZET_MAIN"), string_of_str(j.main)));
    assert(r.deep_view() =~= rank_env_spec(j.id@, rank, j.task.replicas, j.main@));
    r
}

/// `-e key=value` for each variable, in order.
pub open spec fn env_args(e: Seq<(Seq<char>, Seq<char>)>) -> Seq<Seq<char>>
    decreases e.len(),
{
    if e.len() == 0 {
        seq![]
    } else {
        env_args(e.drop_last()) + seq!["-e"@, e.last().0 + "="@ + e.last().1]
    }
}

/// A flag and its decimal value, when there is a value.
pub open spec fn num_flag(flag: Seq<char>, v: Option<nat>) -> Seq<Seq<char>> {
    match v {
        Some(n) => seq![flag, dec(n)],
        None => seq![],
    }
}

/// The arguments of `docker run` for a rank of a task with an image: the
/// container is removed on exit, shares the host network, is named after
/// the job and rank, sees the job directory as `/work` (its working
/// directory) and the script file read-only, gets the task's variables and
/// then the rank's, the cpu, memory and gpu limits, and runs the command
/// line's first word as its entrypoint with the rest as arguments.
pub open spec fn docker_args_spec(
    t: TaskView,
    id: Seq<char>,
    dir: Seq<char>,
    main: Seq<char>,
    rank: u32,
    argv: Seq<Seq<char>>,
    file: Option<Seq<char>>,
) -> Seq<Seq<char>> {
    seq![
        "run"@,
        "--rm"@,
        "--network"@,
        "host"@,
        "--name"@,
        container_name_spec(id, rank),
        "-v"@,
        dir + ":/work"@,
        "-w"@,
        "/work"@,
        "--entrypoint"@,
        argv[0],
    ] + match file {
        Some(f) => seq!["-v"@, f + ":"@ + CELL@ + ":ro"@],
        None => seq![],
    } + env_args(t.env + rank_env_spec(id, rank, t.replicas, main)) + num_flag(
        "--cpus"@,
        match t.cpus {
            Some(c) => Some(c as nat),
            None => None,
        },
    ) + num_flag(
        "--memory"@,
        match t.mem_bytes {
            Some(m) => Some(m as nat),
            None => None,
        },
    ) + num_flag(
        "--gpus"@,
        if t.gpus > 0 {
            Some(t.gpus as nat)
        } else {
            None
        },
    ) + seq![t.image->0] + argv.subrange(1, argv.len() as int)
}

/// Appends `-e key=value` for each variable.
fn push_env_args(out: &mut Vec<String>, e: &Vec<(String, String)>)
    ensures
        final(out).deep_view() == old(out).deep_view() + env_args(e.deep_view()),
{
    let ghost start = out.deep_view();
    let mut i: usize = 0;
    while i < e.len()
        invariant
            i <= e@.len(),
            out.deep_view() == start + env_args(e.deep_view().subrange(0, i as int)),
        decreases e@.len() - i,
    {
        let ghost before = out.deep_view();
        let mut kv: Vec<char> = Vec::new();
        push_str(&mut kv, e[i].0.as_str());
        push_str(&mut kv, "=");
        push_str(&mut kv, e[i].1.as_str());
        out.push(string_of_str("-e"));
        out.push(string_of(kv.as_slice()));
        proof {
            let pre = e.deep_view().subrange(0, i as int);
            let nxt = e.deep_view().subrange(0, i + 1);
            assert(nxt.drop_last() =~= pre);
            assert(nxt.last() == e.deep_view()[i as int]);
            assert(out.deep_view() =~= before + seq!["-e"@, kv@]);
        }
        i += 1;
    }
    assert(e.deep_view().subrange(0, e@.len() as int) =~= e.deep_view());
}

/// Appends a flag and its value when there is a value.
fn push_num_flag(out: &mut Vec<String>, flag: &str, v: Option<u64>)
    ensures
        final(out).deep_view() == old(out).deep_view() + num_flag(
            flag@,
            match v {
                Some(n) => Some(n as nat),
                None => None,
            },
        ),
{
    let ghost before = out.deep_view();
    if let Some(n) = v {
        out.push(string_of_str(flag));
        out.push(dec_string(n));
        assert(out.deep_view() =~= before + seq![flag@, dec(n as nat)]);
    } else {
        assert(out.deep_view() =~= before + seq![]);
    }
}

/// The arguments of `docker run` for rank `rank` of `j`, whose command line
/// is `argv`; `file` is the script file to mount, if any.
pub fn docker_args(j: &Job, rank: u32, argv: &Vec<String>, file: Option<&str>) -> (r: Vec<String>)
    requires
        argv@.len() >= 1,
        j.task.image is Some,
    ensures
        r.deep_view() == docker_args_spec(
            j.task@,
            j.id@,
            j.dir@,
            j.main@,
            rank,
            argv.deep_view(),
            match file {
                Some(f) => Some(f@),
                None => None,
            },
        ),
{
    let t = j.task;
    let mut r: Vec<String> = Vec::new();
    r.push(string_of_str("run"));
    r.push(string_of_str("--rm"));
    r.push(string_of_str("--network"));
    r.push(string_of_str("host"));
    r.push(string_of_str("--name"));
    r.push(container_name(j.id, rank));
    r.push(string_of_str("-v"));
    r.push(concat(j.dir, ":/work"));
    r.push(string_of_str("-w"));
    r.push(string_of_str("/work"));
    r.push(string_of_str("--entrypoint"));
    r.push(argv[0].clone());
    let ghost fixed = r.deep_view();
    if let Some(f) = file {
        let mut m: Vec<char> = Vec::new();
        push_str(&mut m, f);
        push_str(&mut m, ":");
        push_str(&mut m, CELL);
        push_str(&mut m, ":ro");
        r.push(string_of_str("-v"));
        r.push(string_of(m.as_slice()));
    }
    let ghost with_file = r.deep_view();
    let mut envs: Vec<(String, String)> = Vec::new();
    let mut i: usize = 0;
    while i < t.env.len()
        invariant
            i <= t.env@.len(),
            envs.deep_view() == t@.env.subrange(0, i as int),
        decreases t.env@.len() - i,
    {
        let ghost before = envs.deep_view();
        let k = t.env[i].0.clone();
        let v = t.env[i].1.clone();
        assert(k@ == t@.env[i as int].0 && v@ == t@.env[i as int].1);
        envs.push((k, v));
        assert(envs.deep_view() =~= before.push(t@.env[i as int]));
        assert(envs.deep_view() =~= t@.env.subrange(0, i + 1));
        i += 1;
    }
    let re = rank_env(j, rank);
    let mut i: usize = 0;
    let ghost base = envs.deep_view();
    while i < re.len()
        invariant
            i <= re@.len(),
            envs.deep_view() == base + re.deep_view().subrange(0, i as int),
        decreases re@.len() - i,
    {
        let ghost before = envs.deep_view();
        let k = re[i].0.clone();
        let v = re[i].1.clone();
        assert(k@ == re.deep_view()[i as int].0 && v@ == re.deep_view()[i as int].1);
        envs.push((k, v));
        assert(envs.deep_view() =~= before.push(re.deep_view()[i as int]));
        assert(envs.deep_view() =~= base + re.deep_view().subrange(0, i + 1));
        i += 1;
    }
    assert(t@.env.subrange(0, t@.env.len() as int) =~= t@.env);
    assert(re.deep_view().subrange(0, re@.len() as int) =~= re.deep_view());
    push_env_args(&mut r, &envs);
    push_num_flag(&mut r, "--cpus", match t.cpus { Some(c) => Some(c as u64), None => None });
    push_num_flag(&mut r, "--memory", t.mem_bytes);
    push_num_flag(&mut r, "--gpus", if t.gpus > 0 { Some(t.gpus as u64) } else { None });
    let ghost before_image = r.deep_view();
    match &t.image {
        Some(image) => r.push(image.clone()),
        None => {},
    }
    let ghost with_image = r.deep_view();
    let mut i: usize = 1;
    while i < argv.len()
        invariant
            1 <= i <= argv@.len(),
            r.deep_view() == with_image + argv.deep_view().subrange(1, i as int),
        decreases argv@.len() - i,
    {
        let ghost before = r.deep_view();
        let a = argv[i].clone();
        assert(a@ == argv.deep_view()[i as int]);
        r.push(a);
        assert(r.deep_view() =~= before.push(argv.deep_view()[i as int]));
        assert(r.deep_view() =~= with_image + argv.deep_view().subrange(1, i + 1));
        i += 1;
    }
    proof {
        let fopt = match file {
            Some(f) => Some(f@),
            None => None::<Seq<char>>,
        };
        let want = docker_args_spec(j.task@, j.id@, j.dir@, j.main@, rank, argv.deep_view(), fopt);
        assert(fixed[11] == argv.deep_view()[0]);
        assert(with_image =~= before_image.push(t@.image->0));
        assert(r.deep_view() =~= want);
    }
    r
}

/// The exit code of a process: its own code, or 128 plus the signal that
/// ended it (9 when none is known).
pub open spec fn exit_code_spec(code: Option<i32>, signal: Option<i32>) -> int {
    match code {
        Some(c) => c as int,
        None => 128 + match signal {
            Some(s) => s as int,
            None => 9,
        },
    }
}

pub fn exit_code(code: Option<i32>, signal: Option<i32>) -> (r: i32)
    requires
        code is None && signal is Some ==> signal->0 <= i32::MAX - 128,
    ensures
        r == exit_code_spec(code, signal),
{
    match code {
        Some(c) => c,
        None => 128 + match signal {
            Some(s) => s,
            None => 9,
        },
    }
}

/// The first nonzero code, or 0 when every code is 0.
pub open spec fn first_nonzero(codes: Seq<i32>) -> i32
    decreases codes.len(),
{
    if codes.len() == 0 {
        0
    } else if codes[0] != 0 {
        codes[0]
    } else {
        first_nonzero(codes.drop_first())
    }
}

/// What happens while a cell runs: a rank exits with a code, the job is
/// interrupted, or its time runs out.
#[derive(Clone, Copy, Debug, PartialEq, Eq, Structural)]
pub enum RunEvent {
    Exited(i32),
    Interrupt,
    Deadline,
}

/// What the runner does next.
#[derive(Clone, Copy, Debug, PartialEq, Eq, Structural)]
pub enum RunAction {
    /// Wait for the next event.
    Wait,
    /// Kill every rank's process tree.
    KillAll,
}

/// The state of a cell's run: how many ranks there are and have exited,
/// the code so far, and whether the ranks were killed, and why.
#[derive(Clone, Copy, Debug)]
pub struct RunState {
    pub ranks: u32,
    pub exited: u32,
    pub code: i32,
    pub killed: bool,
    pub interrupted: bool,
    pub timed_out: bool,
}

impl RunState {
    pub open spec fn wf(self) -> bool {
        &&& self.exited <= self.ranks
        &&& self.killed == (self.interrupted || self.timed_out)
    }

    /// Whether ranks are still running.
    pub open spec fn running_spec(self) -> bool {
        self.exited < self.ranks
    }

    /// Whether the event can come in this state: only while ranks run, and
    /// an interrupt or the deadline only until the ranks are killed.
    pub open spec fn accepts(self, e: RunEvent) -> bool {
        self.running_spec() && (e is Exited || !self.killed)
    }

    /// The state after an event, and what to do: the first nonzero exit code
    /// is kept; an interrupt or the deadline kills every rank.
    pub open spec fn next(self, e: RunEvent) -> (RunState, RunAction) {
        match e {
            RunEvent::Exited(c) => (
                RunState {
                    exited: (self.exited + 1) as u32,
                    code: if self.code == 0 {
                        c
                    } else {
                        self.code
                    },
                    ..self
                },
                RunAction::Wait,
            ),
            RunEvent::Interrupt => (
                RunState { killed: true, interrupted: true, ..self },
                RunAction::KillAll,
            ),
            RunEvent::Deadline => (
                RunState { killed: true, timed_out: true, ..self },
                RunAction::KillAll,
            ),
        }
    }

    /// The job's exit code and whether it was interrupted: 130 after an
    /// interrupt, else 124 after the deadline, else the first nonzero code.
    pub open spec fn outcome(self) -> (i32, bool) {
        (
            if self.interrupted {
                130
            } else if self.timed_out {
                124
            } else {
                self.code
            },
            self.interrupted,
        )
    }

    /// Nothing has happened yet.
    pub open spec fn new_spec(ranks: u32) -> RunState {
        RunState { ranks, exited: 0, code: 0, killed: false, interrupted: false, timed_out: false }
    }

    pub fn new(ranks: u32) -> (r: RunState)
        ensures
            r.wf(),
            r == RunState::new_spec(ranks),
    {
        RunState { ranks, exited: 0, code: 0, killed: false, interrupted: false, timed_out: false }
    }

    pub fn running(&self) -> (r: bool)
        ensures
            r == self.running_spec(),
    {
        self.exited < self.ranks
    }

    /// Whether an interrupt or the deadline can still kill the ranks.
    pub fn can_kill(&self) -> (r: bool)
        ensures
            r == !self.killed,
    {
        !self.killed
    }

    pub fn step(&mut self, e: RunEvent) -> (a: RunAction)
        requires
            old(self).wf(),
            old(self).accepts(e),
        ensures
            final(self).wf(),
            (*final(self), a) == old(self).next(e),
    {
        match e {
            RunEvent::Exited(c) => {
                self.exited = self.exited + 1;
                if self.code == 0 {
                    self.code = c;
                }
                RunAction::Wait
            },
            RunEvent::Interrupt => {
                self.killed = true;
                self.interrupted = true;
                RunAction::KillAll
            },
            RunEvent::Deadline => {
                self.killed = true;
                self.timed_out = true;
                RunAction::KillAll
            },
        }
    }

    pub fn finish(&self) -> (r: (i32, bool))
        ensures
            r == self.outcome(),
    {
        let code = if self.interrupted {
            130
        } else if self.timed_out {
            124
        } else {
            self.code
        };
        (code, self.interrupted)
    }
}

/// The state after a sequence of events.
pub open spec fn run_all(s: RunState, evs: Seq<RunEvent>) -> RunState
    decreases evs.len(),
{
    if evs.len() == 0 {
        s
    } else {
        run_all(s.next(evs[0]).0, evs.drop_first())
    }
}

/// Whether each event of the sequence can come in the state it meets.
pub open spec fn run_valid(s: RunState, evs: Seq<RunEvent>) -> bool
    decreases evs.len(),
{
    if evs.len() == 0 {
        true
    } else {
        s.accepts(evs[0]) && run_valid(s.next(evs[0]).0, evs.drop_first())
    }
}

/// The exit codes among the events, in order.
pub open spec fn exit_codes(evs: Seq<RunEvent>) -> Seq<i32>
    decreases evs.len(),
{
    if evs.len() == 0 {
        seq![]
    } else {
        let rest = exit_codes(evs.drop_first());
        match evs[0] {
            RunEvent::Exited(c) => seq![c] + rest,
            _ => rest,
        }
    }
}

proof fn lemma_run_all(s: RunState, evs: Seq<RunEvent>)
    requires
        s.wf(),
        run_valid(s, evs),
    ensures
        run_all(s, evs).wf(),
        run_all(s, evs).ranks == s.ranks,
        run_all(s, evs).exited == s.exited + exit_codes(evs).len(),
        run_all(s, evs).interrupted == (s.interrupted || evs.contains(RunEvent::Interrupt)),
        run_all(s, evs).timed_out == (s.timed_out || evs.contains(RunEvent::Deadline)),
        run_all(s, evs).code == (if s.code != 0 {
            s.code
        } else {
            first_nonzero(exit_codes(evs))
        }),
        evs.len() > 0 ==> s.running_spec(),
    decreases evs.len(),
{
    if evs.len() > 0 {
        let t = s.next(evs[0]).0;
        lemma_run_all(t, evs.drop_first());
        let rest = exit_codes(evs.drop_first());
        if let RunEvent::Exited(c) = evs[0] {
            assert((seq![c] + rest).drop_first() =~= rest);
            assert((seq![c] + rest)[0] == c);
        }
        assert forall|e: RunEvent| evs.contains(e) <==> (e == evs[0] || evs.drop_first().contains(e)) by {
            if evs.contains(e) {
                let k = choose|k: int| 0 <= k < evs.len() && evs[k] == e;
                if k > 0 {
                    assert(evs.drop_first()[k - 1] == e);
                }
            }
            if evs.drop_first().contains(e) {
                let k = choose|k: int| 0 <= k < evs.drop_first().len() && evs.drop_first()[k] == e;
                assert(evs[k + 1] == e);
            }
            if e == evs[0] {
                assert(evs[0] == e);
            }
        }
    }
}

/// How a cell's run ends: 130 if it was interrupted, else 124 if its time
/// ran out, else the first nonzero exit code of its ranks, or 0 when every
/// rank exited 0; the run is over once every rank has exited.
pub proof fn lemma_run_outcome(ranks: u32, evs: Seq<RunEvent>)
    requires
        run_valid(RunState::new_spec(ranks), evs),
    ensures
        run_all(RunState::new_spec(ranks), evs).outcome().0 == (if evs.contains(RunEvent::Interrupt) {
            130
        } else if evs.contains(RunEvent::Deadline) {
            124
        } else {
            first_nonzero(exit_codes(evs))
        }),
        run_all(RunState::new_spec(ranks), evs).outcome().1 == evs.contains(RunEvent::Interrupt),
        run_all(RunState::new_spec(ranks), evs).running_spec() == (exit_codes(evs).len() < ranks),
{
    lemma_run_all(RunState::new_spec(ranks), evs);
}

/// A job's exit code is 0 exactly when every code is 0, and otherwise the
/// first code that is not.
pub proof fn lemma_first_nonzero(codes: Seq<i32>)
    ensures
        (first_nonzero(codes) == 0) <==> (forall|i: int| 0 <= i < codes.len() ==> codes[i] == 0),
        first_nonzero(codes) != 0 ==> exists|k: int|
            0 <= k < codes.len() && codes[k] == first_nonzero(codes) && forall|j: int|
                0 <= j < k ==> codes[j] == 0,
    decreases codes.len(),
{
    if codes.len() > 0 {
        let rest = codes.drop_first();
        lemma_first_nonzero(rest);
        if codes[0] == 0 {
            assert forall|i: int| 0 <= i < codes.len() && (forall|j: int| 0 <= j < rest.len() ==> rest[j] == 0) implies codes[i] == 0 by {
                if i > 0 {
                    assert(codes[i] == rest[i - 1]);
                }
            }
            if first_nonzero(rest) != 0 {
                let k = choose|k: int|
                    0 <= k < rest.len() && rest[k] == first_nonzero(rest) && forall|j: int|
                        0 <= j < k ==> rest[j] == 0;
                assert(codes[k + 1] == rest[k]);
                assert forall|j: int| 0 <= j < k + 1 implies codes[j] == 0 by {
                    if j > 0 {
                        assert(codes[j] == rest[j - 1]);
                    }
                }
            }
            if exists|i: int| 0 <= i < rest.len() && rest[i] != 0 {
                let i = choose|i: int| 0 <= i < rest.len() && rest[i] != 0;
                assert(codes[i + 1] == rest[i]);
            }
        }
    }
}

} // verus!
