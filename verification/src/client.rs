//! The decisions of exzec, the client: which servers a run goes to and how
//! the ranks are spread over them, how output of many ranks is cut into
//! prefixed lines, what the replies of a server mean, and which exit code
//! the run ends with.
use vstd::prelude::*;
use crate::cas::{join_path, pairs_map, path_join};
use crate::cell::{concat, dec_string, first_line, first_nonzero};
use crate::exfile::{Task, TaskView};
use crate::proto::{clean_rel, clean_rel_spec, Frame, JobInfo, Msg, PathError, CHUNK};
use crate::text::{
    all_digits, chars_of, copy_range, dec, ends_with, find_char, find_char_in, is_ascii_digit,
    is_digit, lemma_rfind_char_before, lines, push_dec, push_dec_i64, push_range, push_str,
    rfind_char_before, split_lines, string_of, string_of_str, trim, trim_range, dec_int,
};
use crate::DEFAULT_PORT;

verus! {

/// A server to run on: its address (`host:port`) and its token.
#[derive(Clone, Debug)]
pub struct Server {
    pub addr: String,
    pub token: String,
}

/// `s` cut at its first `c`.
pub open spec fn split_first(s: Seq<char>, c: char) -> Option<(Seq<char>, Seq<char>)> {
    match find_char(s, c) {
        Some(k) => Some((s.subrange(0, k), s.subrange(k + 1, s.len() as int))),
        None => None,
    }
}

/// `s` cut at its last `c` (`rsplit_once`).
pub open spec fn split_last(s: Seq<char>, c: char) -> Option<(Seq<char>, Seq<char>)> {
    match rfind_char_before(s, c, s.len() as int) {
        Some(k) => Some((s.subrange(0, k), s.subrange(k + 1, s.len() as int))),
        None => None,
    }
}

/// Whether an address already names a port: after its last `:` come
/// digits, and what comes before is no bare IPv6 address.
pub open spec fn has_port(addr: Seq<char>) -> bool {
    match split_last(addr, ':') {
        Some((h, p)) => p.len() > 0 && all_digits(p) && (find_char(h, ':') is None || ends_with(
            h,
            seq![']'],
        )),
        None => false,
    }
}

/// A server entry `[token@]host[:port]`: the token is what comes before
/// the first `@` (none without one), and the default port is added to an
/// address that names none.
pub open spec fn parse_entry_spec(e: Seq<char>) -> (Seq<char>, Seq<char>) {
    let (token, addr) = match split_first(e, '@') {
        Some((t, a)) => (t, a),
        None => (seq![], e),
    };
    let addr = if has_port(addr) {
        addr
    } else {
        addr + seq![':'] + dec(DEFAULT_PORT as nat)
    };
    (addr, token)
}

/// The last index of `c` in `s[0..hi]`.
fn rfind_in(s: &[char], hi: usize, c: char) -> (r: Option<usize>)
    requires
        hi <= s@.len(),
    ensures
        match r {
            Some(k) => rfind_char_before(s@, c, hi as int) == Some(k as int),
            None => rfind_char_before(s@, c, hi as int) is None,
        },
{
    let mut i: usize = hi;
    while i > 0 && s[i - 1] != c
        invariant
            i <= hi <= s@.len(),
            rfind_char_before(s@, c, hi as int) == rfind_char_before(s@, c, i as int),
        decreases i,
    {
        i -= 1;
    }
    if i == 0 {
        None
    } else {
        Some(i - 1)
    }
}

/// Whether `addr` names a port.
fn has_port_in(a: &[char]) -> (r: bool)
    ensures
        r == has_port(a@),
{
    match rfind_in(a, a.len(), ':') {
        None => false,
        Some(k) => {
            proof {
                lemma_rfind_char_before(a@, ':', a@.len() as int);
            }
            let ghost h = a@.subrange(0, k as int);
            let ghost p = a@.subrange(k + 1, a@.len() as int);
            assert(split_last(a@, ':') == Some((h, p)));
            if k + 1 == a.len() {
                assert(p.len() == 0);
                return false;
            }
            let mut i: usize = k + 1;
            while i < a.len()
                invariant
                    k + 1 <= i <= a@.len(),
                    p == a@.subrange(k + 1, a@.len() as int),
                    h == a@.subrange(0, k as int),
                    split_last(a@, ':') == Some((h, p)),
                    forall|j: int| 0 <= j < i - k - 1 ==> is_digit(#[trigger] p[j]),
                decreases a@.len() - i,
            {
                if !is_ascii_digit(a[i]) {
                    assert(!is_digit(p[i - k - 1]));
                    assert(!all_digits(p));
                    return false;
                }
                i += 1;
            }
            assert(all_digits(p));
            let colon = find_char_in(a, 0, k, ':');
            assert(a@.subrange(0, k as int) == h);
            assert(colon is None <==> find_char(h, ':') is None);
            if colon.is_none() {
                true
            } else {
                let r = k > 0 && a[k - 1] == ']';
                proof {
                    if k > 0 {
                        let t = h.subrange(h.len() - 1, h.len() as int);
                        assert(t.len() == 1 && t[0] == a@[k - 1]);
                        if a@[k - 1] == ']' {
                            assert(t =~= seq![']']);
                        } else {
                            assert(t[0] != seq![']'][0]);
                        }
                    }
                }
                r
            }
        },
    }
}

/// The server a `[token@]host[:port]` entry names.
pub fn parse_entry(e: &str) -> (r: Server)
    ensures
        (r.addr@, r.token@) == parse_entry_spec(e@),
{
    let c = chars_of(e);
    let (token, addr): (Vec<char>, Vec<char>) = match find_char_in(c.as_slice(), 0, c.len(), '@') {
        Some(k) => (copy_range(c.as_slice(), 0, k), copy_range(c.as_slice(), k + 1, c.len())),
        None => (Vec::new(), copy_range(c.as_slice(), 0, c.len())),
    };
    assert(c@.subrange(0, c@.len() as int) =~= c@);
    let mut a = addr;
    if !has_port_in(a.as_slice()) {
        a.push(':');
        push_dec(&mut a, DEFAULT_PORT as u64);
    }
    Server { addr: string_of(a.as_slice()), token: string_of(token.as_slice()) }
}

/// The server entries of a run: those given on the command line, else the
/// task's, else those of the user's configuration.
pub open spec fn pick_entries_spec(cli: Seq<Seq<char>>, task: Seq<Seq<char>>, config: Seq<
    Seq<char>,
>) -> Seq<Seq<char>> {
    if cli.len() > 0 {
        cli
    } else if task.len() > 0 {
        task
    } else {
        config
    }
}

fn copy_all(v: &[String]) -> (r: Vec<String>)
    ensures
        r.deep_view() == v.deep_view(),
{
    let mut r: Vec<String> = Vec::new();
    let mut i: usize = 0;
    while i < v.len()
        invariant
            i <= v@.len(),
            r.deep_view() == v.deep_view().take(i as int),
        decreases v@.len() - i,
    {
        let ghost before = r.deep_view();
        let x = v[i].clone();
        r.push(x);
        assert(r.deep_view() =~= before.push(v.deep_view()[i as int]));
        assert(r.deep_view() =~= v.deep_view().take(i + 1));
        i += 1;
    }
    assert(v.deep_view().take(v@.len() as int) =~= v.deep_view());
    r
}

/// The server entries of a run.
pub fn pick_entries(cli: &[String], task: &[String], config: &[String]) -> (r: Vec<String>)
    ensures
        r.deep_view() == pick_entries_spec(cli.deep_view(), task.deep_view(), config.deep_view()),
{
    if cli.len() > 0 {
        copy_all(cli)
    } else if task.len() > 0 {
        copy_all(task)
    } else {
        copy_all(config)
    }
}

/// The server entries in the user's configuration file: its trimmed lines
/// that are neither empty nor comments.
pub open spec fn config_entries_spec(ls: Seq<Seq<char>>) -> Seq<Seq<char>>
    decreases ls.len(),
{
    if ls.len() == 0 {
        seq![]
    } else {
        let l = trim(ls.last());
        config_entries_spec(ls.drop_last()) + if l.len() > 0 && l[0] != '#' {
            seq![l]
        } else {
            seq![]
        }
    }
}

/// The server entries of the configuration text `text`.
pub fn config_entries(text: &str) -> (r: Vec<String>)
    ensures
        r.deep_view() == config_entries_spec(lines(text@)),
{
    let c = chars_of(text);
    let ls = split_lines(c.as_slice());
    let mut r: Vec<String> = Vec::new();
    let mut i: usize = 0;
    while i < ls.len()
        invariant
            i <= ls@.len(),
            ls.deep_view() == lines(text@),
            r.deep_view() == config_entries_spec(ls.deep_view().take(i as int)),
        decreases ls@.len() - i,
    {
        let l = &ls[i];
        assert(l@ == ls.deep_view()[i as int]);
        let (a, b) = trim_range(l.as_slice(), 0, l.len());
        assert(l@.subrange(0, l@.len() as int) =~= l@);
        let ghost before = r.deep_view();
        if a < b && l[a] != '#' {
            let t = copy_range(l.as_slice(), a, b);
            r.push(string_of(t.as_slice()));
            assert(r.deep_view() =~= before + seq![t@]);
        } else {
            assert(r.deep_view() =~= before + seq![]);
        }
        proof {
            let pre = ls.deep_view().take(i + 1);
            assert(pre.drop_last() =~= ls.deep_view().take(i as int));
            assert(pre.last() == l@);
        }
        i += 1;
    }
    assert(ls.deep_view().take(ls@.len() as int) =~= ls.deep_view());
    r
}

/// `s` without the entries met before, first occurrences kept in order.
pub open spec fn dedup_spec(s: Seq<Seq<char>>) -> Seq<Seq<char>>
    decreases s.len(),
{
    if s.len() == 0 {
        seq![]
    } else {
        let d = dedup_spec(s.drop_last());
        if d.contains(s.last()) {
            d
        } else {
            d.push(s.last())
        }
    }
}

/// The servers of all tasks, each once, in the order first met.
pub open spec fn task_servers(tasks: Seq<TaskView>) -> Seq<Seq<char>>
    decreases tasks.len(),
{
    if tasks.len() == 0 {
        seq![]
    } else {
        task_servers(tasks.drop_last()) + tasks.last().servers
    }
}

/// The servers that the tasks of an exfile name, each once, in order.
pub fn all_servers(tasks: &[Task]) -> (r: Vec<String>)
    ensures
        r.deep_view() == dedup_spec(task_servers(tasks@.map_values(|t: Task| t@))),
{
    let ghost tv = tasks@.map_values(|t: Task| t@);
    let ghost mut seen: Seq<Seq<char>> = seq![];
    let mut r: Vec<String> = Vec::new();
    let mut i: usize = 0;
    while i < tasks.len()
        invariant
            i <= tasks@.len(),
            tv == tasks@.map_values(|t: Task| t@),
            seen == task_servers(tv.take(i as int)),
            r.deep_view() == dedup_spec(seen),
        decreases tasks@.len() - i,
    {
        let t = &tasks[i];
        assert(tv[i as int] == t@);
        let mut j: usize = 0;
        let ghost seen0 = seen;
        while j < t.servers.len()
            invariant
                j <= t.servers@.len(),
                seen == seen0 + t@.servers.take(j as int),
                r.deep_view() == dedup_spec(seen),
            decreases t.servers@.len() - j,
        {
            let s = &t.servers[j];
            let mut found = false;
            let mut k: usize = 0;
            while k < r.len()
                invariant
                    k <= r@.len(),
                    found == (exists|m: int| 0 <= m < k && r.deep_view()[m] == s@),
                decreases r@.len() - k,
            {
                assert(r.deep_view()[k as int] == r@[k as int]@);
                if r[k] == *s {
                    found = true;
                }
                k += 1;
            }
            let ghost before = r.deep_view();
            proof {
                assert(seen0 + t@.servers.take(j + 1) =~= (seen0 + t@.servers.take(j as int)).push(s@));
                assert(t@.servers[j as int] == s@);
                assert((seen + seq![s@]).drop_last() =~= seen);
                assert(found == r.deep_view().contains(s@));
            }
            if !found {
                r.push(s.clone());
                assert(r.deep_view() =~= before.push(s@));
            }
            proof {
                seen = seen.push(s@);
                assert(seen.drop_last() =~= seen0 + t@.servers.take(j as int));
            }
            j += 1;
        }
        proof {
            assert(t@.servers.take(t@.servers.len() as int) =~= t@.servers);
            assert(tv.take(i + 1).drop_last() =~= tv.take(i as int));
        }
        i += 1;
    }
    assert(tv.take(tasks@.len() as int) =~= tv);
    r
}

/// How many ranks the `i`-th of `k` servers runs: an even share, and one
/// more on the first `replicas % k` servers.
pub open spec fn share(replicas: u32, k: u32, i: int) -> int {
    (replicas / k) as int + if i < (replicas % k) as int {
        1int
    } else {
        0int
    }
}

/// The first rank of the `i`-th of `k` servers.
pub open spec fn first_rank(replicas: u32, k: u32, i: int) -> int {
    i * ((replicas / k) as int) + if i < (replicas % k) as int {
        i
    } else {
        (replicas % k) as int
    }
}

/// The ranks of a run spread over the `k` servers that answered: for each
/// server its first rank and how many ranks it runs.
pub fn plan_ranks(replicas: u32, k: u32) -> (r: Vec<(u32, u32)>)
    requires
        k >= 1,
    ensures
        r@.len() == k,
        forall|i: int|
            0 <= i < k ==> (#[trigger] r@[i]).0 == first_rank(replicas, k, i) && r@[i].1 == share(
                replicas,
                k,
                i,
            ),
{
    let q = replicas / k;
    let m = replicas % k;
    let mut r: Vec<(u32, u32)> = Vec::new();
    let mut rank0: u32 = 0;
    let mut i: u32 = 0;
    while i < k
        invariant
            i <= k,
            q == replicas / k,
            m == replicas % k,
            r@.len() == i,
            rank0 == first_rank(replicas, k, i as int),
            forall|j: int|
                0 <= j < i ==> (#[trigger] r@[j]).0 == first_rank(replicas, k, j) && r@[j].1
                    == share(replicas, k, j),
        decreases k - i,
    {
        proof {
            lemma_plan_ranks(replicas, k);
            assert(first_rank(replicas, k, i + 1) == first_rank(replicas, k, i as int) + share(
                replicas,
                k,
                i as int,
            ));
            assert(0 <= first_rank(replicas, k, i + 1) <= replicas);
        }
        let n: u32 = q + if i < m { 1 } else { 0 };
        r.push((rank0, n));
        rank0 = rank0 + n;
        i += 1;
    }
    r
}

/// The ranks are spread without gap or overlap: the first server starts at
/// rank 0, each next server starts where the one before ends, the last ends
/// at `replicas`, and no server runs more than one rank more than another.
pub proof fn lemma_plan_ranks(replicas: u32, k: u32)
    requires
        k >= 1,
    ensures
        first_rank(replicas, k, 0) == 0,
        forall|i: int|
            0 <= i < k ==> #[trigger] first_rank(replicas, k, i + 1) == first_rank(replicas, k, i)
                + share(replicas, k, i),
        first_rank(replicas, k, k as int) == replicas,
        forall|i: int| 0 <= i <= k ==> 0 <= #[trigger] first_rank(replicas, k, i) <= replicas,
        forall|i: int, j: int|
            0 <= i < k && 0 <= j < k ==> #[trigger] share(replicas, k, i) <= #[trigger] share(
                replicas,
                k,
                j,
            ) + 1,
{
    let q = (replicas / k) as int;
    let m = (replicas % k) as int;
    assert(replicas == k * q + m) by {
        vstd::arithmetic::div_mod::lemma_fundamental_div_mod(replicas as int, k as int);
    }
    assert(0 <= m < k);
    assert forall|i: int| 0 <= i < k implies #[trigger] first_rank(replicas, k, i + 1) == first_rank(
        replicas,
        k,
        i,
    ) + share(replicas, k, i) by {
        assert((i + 1) * q == i * q + q) by (nonlinear_arith);
    }
    assert forall|i: int| 0 <= i <= k implies 0 <= #[trigger] first_rank(replicas, k, i) <= replicas by {
        assert(0 <= i * q <= k * q) by (nonlinear_arith)
            requires
                0 <= i <= k,
                q >= 0,
        ;
    }
}

/// The address ranks use to meet rank 0: the loopback address for a run on
/// one server, else the host of the first server's address without its
/// brackets.
pub open spec fn main_host_spec(first: Seq<char>, k: u32) -> Seq<char> {
    if k == 1 {
        "127.0.0.1"@
    } else {
        match split_last(first, ':') {
            Some((h, _)) => trim_brackets(h),
            None => "127.0.0.1"@,
        }
    }
}

pub open spec fn is_bracket(c: char) -> bool {
    c == '[' || c == ']'
}

/// `s` without the brackets at its start and end.
pub open spec fn trim_brackets(s: Seq<char>) -> Seq<char>
    decreases s.len(),
{
    if s.len() > 0 && is_bracket(s[0]) {
        trim_brackets(s.drop_first())
    } else if s.len() > 0 && is_bracket(s.last()) {
        trim_brackets(s.drop_last())
    } else {
        s
    }
}

/// The address of the first server's host, for `k` servers.
pub fn main_host(first: &str, k: u32) -> (r: String)
    ensures
        r@ == main_host_spec(first@, k),
{
    if k == 1 {
        return string_of_str("127.0.0.1");
    }
    let a = chars_of(first);
    match rfind_in(a.as_slice(), a.len(), ':') {
        None => string_of_str("127.0.0.1"),
        Some(k) => {
            let mut lo: usize = 0;
            let mut hi: usize = k;
            proof {
                lemma_rfind_char_before(a@, ':', a@.len() as int);
            }
            assert(a@.subrange(0, k as int).subrange(0, k as int) =~= a@.subrange(0, k as int));
            while lo < hi && (a[lo] == '[' || a[lo] == ']')
                invariant
                    lo <= hi <= k < a@.len(),
                    trim_brackets(a@.subrange(0, k as int)) == trim_brackets(
                        a@.subrange(lo as int, hi as int),
                    ),
                    hi == k,
                decreases hi - lo,
            {
                assert(a@.subrange(lo as int, hi as int).drop_first() =~= a@.subrange(
                    lo + 1,
                    hi as int,
                ));
                lo += 1;
            }
            while lo < hi && (a[hi - 1] == '[' || a[hi - 1] == ']')
                invariant
                    lo <= hi <= k < a@.len(),
                    trim_brackets(a@.subrange(0, k as int)) == trim_brackets(
                        a@.subrange(lo as int, hi as int),
                    ),
                    lo < hi ==> !is_bracket(a@[lo as int]),
                decreases hi - lo,
            {
                assert(a@.subrange(lo as int, hi as int).drop_last() =~= a@.subrange(
                    lo as int,
                    hi - 1,
                ));
                assert(a@.subrange(lo as int, hi as int)[0] == a@[lo as int]);
                hi -= 1;
            }
            assert(lo < hi ==> a@.subrange(lo as int, hi as int)[0] == a@[lo as int]);
            assert(lo < hi ==> a@.subrange(lo as int, hi as int).last() == a@[hi - 1]);
            let h = copy_range(a.as_slice(), lo, hi);
            string_of(h.as_slice())
        },
    }
}

/// The exit code of a run of several sessions or tasks: the first nonzero
/// one, or 0.
pub fn first_nonzero_of(codes: &[i32]) -> (r: i32)
    ensures
        r == first_nonzero(codes@),
{
    let mut i: usize = 0;
    assert(codes@.subrange(0, codes@.len() as int) =~= codes@);
    while i < codes.len()
        invariant
            i <= codes@.len(),
            first_nonzero(codes@) == first_nonzero(codes@.subrange(i as int, codes@.len() as int)),
            forall|j: int| 0 <= j < i ==> codes@[j] == 0,
        decreases codes@.len() - i,
    {
        assert(codes@.subrange(i as int, codes@.len() as int).drop_first() =~= codes@.subrange(
            i + 1,
            codes@.len() as int,
        ));
        if codes[i] != 0 {
            return codes[i];
        }
        i += 1;
    }
    0
}

/// The prefix of a rank's output lines: `[rank] `.
pub open spec fn rank_prefix(rank: u32) -> Seq<u8> {
    seq![0x5bu8] + dec(rank as nat).map_values(|c: char| c as u8) + seq![0x5du8, 0x20u8]
}

/// `data` after the prefix of `rank`.
pub open spec fn prefixed_spec(rank: u32, data: Seq<u8>) -> Seq<u8> {
    rank_prefix(rank) + data
}

/// `data` after the prefix of `rank`.
pub fn prefixed(rank: u32, data: &[u8]) -> (r: Vec<u8>)
    ensures
        r@ == prefixed_spec(rank, data@),
{
    let mut d: Vec<char> = Vec::new();
    push_dec(&mut d, rank as u64);
    assert(d@ =~= dec(rank as nat));
    let mut out: Vec<u8> = Vec::new();
    out.push(0x5b);
    let mut i: usize = 0;
    while i < d.len()
        invariant
            i <= d@.len(),
            d@ == dec(rank as nat),
            out@ == seq![0x5bu8] + d@.take(i as int).map_values(|c: char| c as u8),
        decreases d@.len() - i,
    {
        out.push(d[i] as u8);
        assert(d@.take(i + 1).map_values(|c: char| c as u8) =~= d@.take(i as int).map_values(
            |c: char| c as u8,
        ).push(d@[i as int] as u8));
        i += 1;
    }
    assert(d@.take(d@.len() as int) =~= d@);
    out.push(0x5d);
    out.push(0x20);
    let mut j: usize = 0;
    let ghost head = out@;
    while j < data.len()
        invariant
            j <= data@.len(),
            out@ == head + data@.take(j as int),
        decreases data@.len() - j,
    {
        out.push(data[j]);
        assert(data@.take(j + 1) =~= data@.take(j as int).push(data@[j as int]));
        j += 1;
    }
    assert(data@.take(data@.len() as int) =~= data@);
    assert(out@ =~= prefixed_spec(rank, data@));
    out
}

/// The complete lines of `b[start..]`, each with its line feed, scanning on
/// from `i`, and what follows the last line feed.
pub open spec fn split_nl_from(b: Seq<u8>, start: int, i: int) -> (Seq<Seq<u8>>, Seq<u8>)
    decreases b.len() - i,
{
    if start < 0 || start > i || i >= b.len() {
        (seq![], b.subrange(start, b.len() as int))
    } else if b[i] == 10 {
        let r = split_nl_from(b, i + 1, i + 1);
        (seq![b.subrange(start, i + 1)] + r.0, r.1)
    } else {
        split_nl_from(b, start, i + 1)
    }
}

/// A line: it ends with a line feed and holds no other.
pub open spec fn is_line(l: Seq<u8>) -> bool {
    l.len() > 0 && l.last() == 10 && forall|j: int| 0 <= j < l.len() - 1 ==> l[j] != 10
}

proof fn lemma_split_nl(b: Seq<u8>, start: int, i: int)
    requires
        0 <= start <= i <= b.len(),
        forall|j: int| start <= j < i ==> b[j] != 10,
    ensures
        split_nl_from(b, start, i).0.flatten() + split_nl_from(b, start, i).1 == b.subrange(
            start,
            b.len() as int,
        ),
        forall|k: int|
            0 <= k < split_nl_from(b, start, i).0.len() ==> is_line(
                #[trigger] split_nl_from(b, start, i).0[k],
            ),
        forall|j: int|
            0 <= j < split_nl_from(b, start, i).1.len() ==> split_nl_from(b, start, i).1[j] != 10,
    decreases b.len() - i,
{
    if i < b.len() {
        if b[i] == 10 {
            lemma_split_nl(b, i + 1, i + 1);
            let r = split_nl_from(b, i + 1, i + 1);
            let l = b.subrange(start, i + 1);
            let ls = seq![l] + r.0;
            assert(ls.drop_first() =~= r.0);
            assert(ls.first() == l);
            assert(ls.flatten() == l + r.0.flatten());
            assert(r.0.flatten() + r.1 == b.subrange(i + 1, b.len() as int));
            assert(l + (r.0.flatten() + r.1) =~= b.subrange(start, b.len() as int));
            assert(l + r.0.flatten() + r.1 =~= l + (r.0.flatten() + r.1));
            assert forall|k: int| 0 <= k < ls.len() implies is_line(#[trigger] ls[k]) by {
                if k > 0 {
                    assert(ls[k] == r.0[k - 1]);
                }
            }
        } else {
            lemma_split_nl(b, start, i + 1);
        }
    }
}

/// What one piece of output of rank `rank` amounts to: with one rank the
/// piece is written as it is; with several, it is added to what the rank
/// had pending, each complete line is written after the rank's prefix, and
/// what remains stays pending, unless it has grown past `CHUNK` bytes,
/// when it is written too. The writes and the new pending bytes.
pub open spec fn emit_spec(world: u32, rank: u32, pending: Seq<u8>, data: Seq<u8>) -> (
    Seq<Seq<u8>>,
    Seq<u8>,
) {
    if world <= 1 {
        (seq![data], pending)
    } else {
        let (ls, rest) = split_nl_from(pending + data, 0, 0);
        let writes = ls.map_values(|l: Seq<u8>| prefixed_spec(rank, l));
        if rest.len() > CHUNK {
            (writes.push(prefixed_spec(rank, rest)), seq![])
        } else {
            (writes, rest)
        }
    }
}

/// Output of several ranks is written line by line: every write is a
/// rank's prefix followed by one complete line, or, when a rank's pending
/// output has grown past `CHUNK` bytes without a line feed, by all of it;
/// the lines written and what stays pending are exactly what was pending
/// and what came, in order.
pub proof fn lemma_emit_lines(world: u32, rank: u32, pending: Seq<u8>, data: Seq<u8>)
    requires
        world > 1,
        forall|j: int| 0 <= j < pending.len() ==> pending[j] != 10,
    ensures
        ({
            let (ls, rest) = split_nl_from(pending + data, 0, 0);
            let (writes, next) = emit_spec(world, rank, pending, data);
            &&& ls.flatten() + rest == pending + data
            &&& forall|k: int| 0 <= k < ls.len() ==> is_line(#[trigger] ls[k])
            &&& forall|k: int| 0 <= k < ls.len() ==> writes[k] == prefixed_spec(rank, #[trigger] ls[k])
            &&& writes.len() == ls.len() + if rest.len() > CHUNK {
                1int
            } else {
                0int
            }
            &&& rest.len() > CHUNK ==> writes.last() == prefixed_spec(rank, rest) && next.len() == 0
            &&& rest.len() <= CHUNK ==> next == rest
            &&& forall|j: int| 0 <= j < next.len() ==> next[j] != 10
        }),
{
    lemma_split_nl(pending + data, 0, 0);
    assert((pending + data).subrange(0, (pending + data).len() as int) =~= pending + data);
}

/// The flush at the end of a run: each rank's pending output, ended with a
/// line feed, after the rank's prefix, with the stream it goes to.
pub open spec fn flush_spec(es: Seq<(u32, bool, Seq<u8>)>) -> Seq<(bool, Seq<u8>)>
    decreases es.len(),
{
    if es.len() == 0 {
        seq![]
    } else {
        let e = es.last();
        flush_spec(es.drop_last()) + if e.2.len() > 0 {
            seq![(e.1, prefixed_spec(e.0, e.2.push(10u8)))]
        } else {
            seq![]
        }
    }
}

/// The pending output of a rank's stream among the entries: that of the
/// first entry for it, or nothing.
pub open spec fn pending_of(es: Seq<(u32, bool, Seq<u8>)>, rank: u32, err: bool) -> Seq<u8>
    decreases es.len(),
{
    if es.len() == 0 {
        seq![]
    } else if es[0].0 == rank && es[0].1 == err {
        es[0].2
    } else {
        pending_of(es.drop_first(), rank, err)
    }
}

proof fn lemma_pending_first(es: Seq<(u32, bool, Seq<u8>)>, i: int, rank: u32, err: bool)
    requires
        0 <= i < es.len(),
        es[i].0 == rank && es[i].1 == err,
        forall|j: int| 0 <= j < i ==> !(es[j].0 == rank && es[j].1 == err),
    ensures
        pending_of(es, rank, err) == es[i].2,
    decreases i,
{
    if i > 0 {
        lemma_pending_first(es.drop_first(), i - 1, rank, err);
    }
}

proof fn lemma_pending_absent(es: Seq<(u32, bool, Seq<u8>)>, rank: u32, err: bool)
    requires
        forall|j: int| 0 <= j < es.len() ==> !(es[j].0 == rank && es[j].1 == err),
    ensures
        pending_of(es, rank, err) == Seq::<u8>::empty(),
    decreases es.len(),
{
    if es.len() > 0 {
        lemma_pending_absent(es.drop_first(), rank, err);
    }
}

proof fn lemma_pending_update(
    es: Seq<(u32, bool, Seq<u8>)>,
    i: int,
    v: Seq<u8>,
    rank: u32,
    err: bool,
)
    requires
        0 <= i < es.len(),
        forall|j: int| 0 <= j < i ==> !(es[j].0 == es[i].0 && es[j].1 == es[i].1),
    ensures
        pending_of(es.update(i, (es[i].0, es[i].1, v)), rank, err) == if es[i].0 == rank && es[i].1
            == err {
            v
        } else {
            pending_of(es, rank, err)
        },
    decreases i,
{
    let nes = es.update(i, (es[i].0, es[i].1, v));
    if i == 0 {
        assert(nes.drop_first() =~= es.drop_first());
    } else {
        assert(nes[0] == es[0]);
        assert(nes.drop_first() =~= es.drop_first().update(i - 1, (es[i].0, es[i].1, v)));
        lemma_pending_update(es.drop_first(), i - 1, v, rank, err);
    }
}

proof fn lemma_pending_push(es: Seq<(u32, bool, Seq<u8>)>, e: (u32, bool, Seq<u8>), rank: u32, err: bool)
    requires
        forall|j: int| 0 <= j < es.len() ==> !(es[j].0 == e.0 && es[j].1 == e.1),
    ensures
        pending_of(es.push(e), rank, err) == if e.0 == rank && e.1 == err {
            e.2
        } else {
            pending_of(es, rank, err)
        },
    decreases es.len(),
{
    let p = es.push(e);
    if es.len() > 0 {
        assert(p[0] == es[0]);
        assert(!(es[0].0 == e.0 && es[0].1 == e.1));
        assert(p.drop_first() =~= es.drop_first().push(e));
        assert forall|j: int| 0 <= j < es.drop_first().len() implies !(es.drop_first()[j].0 == e.0
            && es.drop_first()[j].1 == e.1) by {
            assert(es.drop_first()[j] == es[j + 1]);
        }
        lemma_pending_push(es.drop_first(), e, rank, err);
        if es[0].0 == rank && es[0].1 == err {
            assert(pending_of(p, rank, err) == es[0].2);
            assert(pending_of(es, rank, err) == es[0].2);
        } else {
            assert(pending_of(p, rank, err) == pending_of(p.drop_first(), rank, err));
            assert(pending_of(es, rank, err) == pending_of(es.drop_first(), rank, err));
        }
    } else {
        assert(p[0] == e);
        assert(p.drop_first() =~= Seq::<(u32, bool, Seq<u8>)>::empty());
        assert(pending_of(es, rank, err) == Seq::<u8>::empty());
        assert(pending_of(p.drop_first(), rank, err) == Seq::<u8>::empty());
    }
}

/// The output that ranks have written without ending its line yet, for
/// each rank and stream (standard output or error).
pub struct LineBuffers {
    bufs: Vec<(u32, bool, Vec<u8>)>,
}

impl LineBuffers {
    pub closed spec fn entries(&self) -> Seq<(u32, bool, Seq<u8>)> {
        self.bufs.deep_view()
    }

    /// What rank `rank` has pending on a stream.
    pub open spec fn pending(&self, rank: u32, err: bool) -> Seq<u8> {
        pending_of(self.entries(), rank, err)
    }

    /// Each entry is for another stream, and none holds a line feed.
    pub closed spec fn wf(&self) -> bool {
        &&& forall|i: int, j: int|
            0 <= i < j < self.entries().len() ==> !(#[trigger] self.entries()[i].0
                == #[trigger] self.entries()[j].0 && self.entries()[i].1 == self.entries()[j].1)
        &&& forall|i: int, j: int|
            0 <= i < self.entries().len() && 0 <= j < self.entries()[i].2.len()
                ==> #[trigger] self.entries()[i].2[j] != 10
    }

    pub fn new() -> (r: LineBuffers)
        ensures
            r.wf(),
            forall|rank: u32, err: bool| #[trigger] r.pending(rank, err) == Seq::<u8>::empty(),
    {
        let r = LineBuffers { bufs: Vec::new() };
        assert forall|rank: u32, err: bool| #[trigger] r.pending(rank, err) == Seq::<u8>::empty() by {
            assert(r.entries().len() == 0);
        }
        r
    }

    /// No rank has a line feed pending.
    pub proof fn lemma_no_newline(&self, rank: u32, err: bool)
        requires
            self.wf(),
        ensures
            forall|j: int| 0 <= j < self.pending(rank, err).len() ==> self.pending(rank, err)[j] != 10,
    {
        let es = self.entries();
        if exists|i: int| 0 <= i < es.len() && es[i].0 == rank && es[i].1 == err {
            let i = choose|i: int| 0 <= i < es.len() && es[i].0 == rank && es[i].1 == err;
            lemma_pending_first(es, i, rank, err);
            assert forall|j: int| 0 <= j < self.pending(rank, err).len() implies self.pending(rank, err)[j] != 10 by {
                assert(es[i].2[j] != 10);
            }
        } else {
            lemma_pending_absent(es, rank, err);
        }
    }

    /// Takes a piece of output of rank `rank` on a stream (`err` for
    /// standard error) of a job of `world` ranks, and gives the writes to
    /// make on that stream, in order.
    pub fn emit(&mut self, world: u32, rank: u32, err: bool, data: &[u8]) -> (r: Vec<Vec<u8>>)
        requires
            old(self).wf(),
        ensures
            final(self).wf(),
            (r.deep_view(), final(self).pending(rank, err)) == emit_spec(
                world,
                rank,
                old(self).pending(rank, err),
                data@,
            ),
            forall|k: u32, e: bool|
                !(k == rank && e == err) ==> #[trigger] final(self).pending(k, e) == old(self).pending(
                    k,
                    e,
                ),
    {
        if world <= 1 {
            let mut w: Vec<Vec<u8>> = Vec::new();
            let mut d: Vec<u8> = Vec::new();
            let mut i: usize = 0;
            while i < data.len()
                invariant
                    i <= data@.len(),
                    d@ == data@.take(i as int),
                decreases data@.len() - i,
            {
                d.push(data[i]);
                assert(data@.take(i + 1) =~= data@.take(i as int).push(data@[i as int]));
                i += 1;
            }
            assert(data@.take(data@.len() as int) =~= data@);
            assert(d.deep_view() =~= d@);
            w.push(d);
            assert(w.deep_view() =~= seq![data@]);
            return w;
        }
        let ghost es = self.entries();
        let mut idx: usize = 0;
        while idx < self.bufs.len() && !(self.bufs[idx].0 == rank && self.bufs[idx].1 == err)
            invariant
                idx <= self.bufs@.len(),
                es == self.entries(),
                self.entries() == self.bufs.deep_view(),
                forall|j: int| 0 <= j < idx ==> !(es[j].0 == rank && es[j].1 == err),
            decreases self.bufs@.len() - idx,
        {
            idx += 1;
        }
        proof {
            self.lemma_no_newline(rank, err);
        }
        let ghost old_pending = self.pending(rank, err);
        if idx == self.bufs.len() {
            proof {
                lemma_pending_absent(es, rank, err);
                lemma_pending_push(es, (rank, err, Seq::<u8>::empty()), rank, err);
                assert forall|k: u32, e: bool| !(k == rank && e == err) implies pending_of(
                    es.push((rank, err, Seq::<u8>::empty())),
                    k,
                    e,
                ) == pending_of(es, k, e) by {
                    lemma_pending_push(es, (rank, err, Seq::<u8>::empty()), k, e);
                }
            }
            let nb: Vec<u8> = Vec::new();
            assert(nb.deep_view() =~= Seq::<u8>::empty());
            self.bufs.push((rank, err, nb));
            assert(self.bufs.deep_view() =~= es.push((rank, err, Seq::<u8>::empty())));
        } else {
            proof {
                lemma_pending_first(es, idx as int, rank, err);
            }
        }
        let ghost es1 = self.entries();
        assert(es1[idx as int].0 == rank && es1[idx as int].1 == err);
        assert(es1[idx as int].2 == old_pending);
        assert forall|j: int| 0 <= j < idx implies !(es1[j].0 == rank && es1[j].1 == err) by {
            assert(es1[j] == es[j]);
        }
        let mut pend: Vec<u8> = Vec::new();
        {
            let cur = &self.bufs[idx].2;
            assert(cur@ == old_pending);
            let mut i: usize = 0;
            while i < cur.len()
                invariant
                    i <= cur@.len(),
                    pend@ == cur@.take(i as int),
                decreases cur@.len() - i,
            {
                pend.push(cur[i]);
                assert(cur@.take(i + 1) =~= cur@.take(i as int).push(cur@[i as int]));
                i += 1;
            }
            assert(cur@.take(cur@.len() as int) =~= cur@);
        }
        let ghost p0 = pend@;
        let mut i: usize = 0;
        while i < data.len()
            invariant
                i <= data@.len(),
                pend@ == p0 + data@.take(i as int),
            decreases data@.len() - i,
        {
            pend.push(data[i]);
            assert(data@.take(i + 1) =~= data@.take(i as int).push(data@[i as int]));
            i += 1;
        }
        assert(data@.take(data@.len() as int) =~= data@);
        assert(pend@ == old_pending + data@);
        let ghost whole = split_nl_from(pend@, 0, 0);
        let mut writes: Vec<Vec<u8>> = Vec::new();
        let ghost mut done: Seq<Seq<u8>> = seq![];
        let mut start: usize = 0;
        let mut i: usize = 0;
        while i < pend.len()
            invariant
                start <= i <= pend@.len(),
                whole == split_nl_from(pend@, 0, 0),
                whole.0 == done + split_nl_from(pend@, start as int, i as int).0,
                whole.1 == split_nl_from(pend@, start as int, i as int).1,
                writes.deep_view() == done.map_values(|l: Seq<u8>| prefixed_spec(rank, l)),
            decreases pend@.len() - i,
        {
            if pend[i] == 10 {
                let line = copy_slice(pend.as_slice(), start, i + 1);
                let w = prefixed(rank, line.as_slice());
                assert(w.deep_view() =~= w@);
                let ghost before = writes.deep_view();
                writes.push(w);
                proof {
                    let l = pend@.subrange(start as int, i + 1);
                    let r = split_nl_from(pend@, i + 1, i + 1);
                    assert(split_nl_from(pend@, start as int, i as int) == (seq![l] + r.0, r.1));
                    assert(done + (seq![l] + r.0) =~= done.push(l) + r.0);
                    assert(writes.deep_view() =~= before.push(prefixed_spec(rank, l)));
                    assert(done.push(l).map_values(|l: Seq<u8>| prefixed_spec(rank, l)) =~= done.map_values(
                        |l: Seq<u8>| prefixed_spec(rank, l),
                    ).push(prefixed_spec(rank, l)));
                    done = done.push(l);
                }
                start = i + 1;
            }
            i += 1;
        }
        assert(split_nl_from(pend@, start as int, i as int).0 =~= Seq::<Seq<u8>>::empty());
        assert(done =~= whole.0);
        let rest = copy_slice(pend.as_slice(), start, pend.len());
        assert(rest@ == whole.1);
        let next: Vec<u8> = if rest.len() > CHUNK {
            let ghost before = writes.deep_view();
            let w = prefixed(rank, rest.as_slice());
            assert(w.deep_view() =~= w@);
            writes.push(w);
            assert(writes.deep_view() =~= before.push(prefixed_spec(rank, rest@)));
            Vec::new()
        } else {
            rest
        };
        proof {
            lemma_emit_lines(world, rank, old_pending, data@);
        }
        let ghost nv = next@;
        assert(next.deep_view() =~= nv);
        self.bufs.set(idx, (rank, err, next));
        proof {
            assert(self.entries() =~= es1.update(idx as int, (rank, err, nv)));
            lemma_pending_update(es1, idx as int, nv, rank, err);
            assert forall|k: u32, e: bool| !(k == rank && e == err) implies #[trigger] self.pending(
                k,
                e,
            ) == old(self).pending(k, e) by {
                lemma_pending_update(es1, idx as int, nv, k, e);
            }
            assert forall|a: int, b: int|
                0 <= a < b < self.entries().len() implies !(#[trigger] self.entries()[a].0
                == #[trigger] self.entries()[b].0 && self.entries()[a].1 == self.entries()[b].1) by {
                if idx < es.len() {
                    assert(es1 == es);
                }
            }
            assert forall|a: int, j: int|
                0 <= a < self.entries().len() && 0 <= j < self.entries()[a].2.len() implies #[trigger] self.entries()[a].2[j] != 10 by {
                if a != idx {
                    assert(self.entries()[a] == es1[a]);
                    if a < es.len() {
                        assert(es1[a] == es[a]);
                    }
                }
            }
        }
        writes
    }

    /// Ends the output of every rank: the writes that flush what each has
    /// pending, each with the stream it goes to; nothing stays pending.
    pub fn flush(&mut self) -> (r: Vec<(bool, Vec<u8>)>)
        ensures
            r.deep_view() == flush_spec(old(self).entries()),
            final(self).wf(),
            forall|rank: u32, err: bool| #[trigger] final(self).pending(rank, err) == Seq::<u8>::empty(),
    {
        let mut r: Vec<(bool, Vec<u8>)> = Vec::new();
        let mut i: usize = 0;
        while i < self.bufs.len()
            invariant
                i <= self.bufs@.len(),
                self.entries() == old(self).entries(),
                r.deep_view() == flush_spec(self.entries().take(i as int)),
            decreases self.bufs@.len() - i,
        {
            let ghost before = r.deep_view();
            let e = &self.bufs[i];
            assert(e.2@ == self.entries()[i as int].2);
            if e.2.len() > 0 {
                let mut line = copy_slice(e.2.as_slice(), 0, e.2.len());
                assert(e.2@.subrange(0, e.2@.len() as int) =~= e.2@);
                line.push(10);
                let w = prefixed(e.0, line.as_slice());
                assert(w.deep_view() =~= w@);
                r.push((e.1, w));
                assert(r.deep_view() =~= before + seq![(e.1, prefixed_spec(e.0, e.2@.push(10u8)))]);
            } else {
                assert(r.deep_view() =~= before + seq![]);
            }
            proof {
                let pre = self.entries().take(i + 1);
                assert(pre.drop_last() =~= self.entries().take(i as int));
                assert(pre.last() == self.entries()[i as int]);
            }
            i += 1;
        }
        assert(self.entries().take(self.bufs@.len() as int) =~= self.entries());
        self.bufs = Vec::new();
        assert forall|rank: u32, err: bool| #[trigger] self.pending(rank, err) == Seq::<u8>::empty() by {
            assert(self.entries().len() == 0);
        }
        r
    }
}

/// A copy of `s[lo..hi]`.
pub fn copy_slice(s: &[u8], lo: usize, hi: usize) -> (r: Vec<u8>)
    requires
        lo <= hi <= s@.len(),
    ensures
        r@ == s@.subrange(lo as int, hi as int),
{
    let mut r: Vec<u8> = Vec::new();
    let mut i: usize = lo;
    while i < hi
        invariant
            lo <= i <= hi <= s@.len(),
            r@ == s@.subrange(lo as int, i as int),
        decreases hi - i,
    {
        r.push(s[i]);
        assert(s@.subrange(lo as int, i + 1) =~= s@.subrange(lo as int, i as int).push(s@[i as int]));
        i += 1;
    }
    r
}

/// What the client does with one frame of a running job's stream.
pub enum StreamAction {
    /// Nothing.
    Nothing,
    /// Output of a rank, to go through the line buffers.
    Emit { rank: u32, err: bool, data: Vec<u8> },
    /// Create the output file at `path` (relative to the workspace) with
    /// permission bits `mode`; `shown` is the path as the server sent it;
    /// `fill` says whether data for it follows.
    CreateFile { path: String, shown: String, mode: u32, fill: bool },
    /// Append to the output file being received.
    Write { data: Vec<u8> },
    /// The job ended with this code.
    Exit { code: i32 },
    /// A warning of the server.
    Warn { msg: String },
    /// The server failed the job.
    Fail { msg: String },
    /// The server sent an output path that is not safe to write.
    BadPath { reason: PathError },
}

/// What the client expects of the next data frame of a job's stream: the
/// rank and stream of the output announced last, and how much of the
/// output file being received has come (of how much).
pub struct StreamState {
    pub out: Option<(u32, bool)>,
    pub file: Option<(u64, u64)>,
}

impl StreamState {
    pub fn new() -> (r: StreamState)
        ensures
            r.out is None,
            r.file is None,
    {
        StreamState { out: None, file: None }
    }

    /// Takes the next frame and gives what to do with it. An output
    /// announcement is remembered for the data frame that follows; an
    /// output file is created (its mode at least `rw` for the owner) and,
    /// unless empty, filled by the data frames that follow until its length
    /// has come; a data frame with neither announced is dropped.
    pub fn step(&mut self, f: Frame) -> (a: StreamAction)
        requires
            match f {
                Frame::Raw(d) => old(self).out is None ==> match old(self).file {
                    Some((_, got)) => got + d@.len() <= u64::MAX,
                    None => true,
                },
                _ => true,
            },
        ensures
            match f {
                Frame::Json(Msg::Out { rank, err }) => a is Nothing && final(self).out == Some(
                    (rank, err),
                ) && final(self).file == old(self).file,
                Frame::Json(Msg::OutFile { path, mode, len }) => match clean_rel_spec(path@) {
                    Ok(p) => a matches StreamAction::CreateFile { path: q, shown, mode: m, fill } && q@
                        == p && shown@ == path@ && m == (mode & 0o777) | 0o600 && fill == (len > 0)
                        && final(self).out
                        == old(self).out && final(self).file == if len > 0 {
                        Some((len, 0u64))
                    } else {
                        old(self).file
                    },
                    Err(e) => a == (StreamAction::BadPath { reason: e }) && *final(self) == *old(self),
                },
                Frame::Json(Msg::Exit { code }) => a == (StreamAction::Exit { code }) && *final(self)
                    == *old(self),
                Frame::Json(Msg::Warn { msg }) => a matches StreamAction::Warn { msg: w } && w@
                    == msg@ && *final(self) == *old(self),
                Frame::Json(Msg::Error { msg }) => a matches StreamAction::Fail { msg: w } && w@
                    == msg@ && *final(self) == *old(self),
                Frame::Json(_) => a is Nothing && *final(self) == *old(self),
                Frame::Raw(d) => match old(self).out {
                    Some((rank, err)) => a matches StreamAction::Emit { rank: r, err: e, data }
                        && r == rank && e == err && data@ == d@ && final(self).out is None
                        && final(self).file == old(self).file,
                    None => match old(self).file {
                        Some((len, got)) => a matches StreamAction::Write { data } && data@ == d@
                            && final(self).out is None && final(self).file == if got + d@.len()
                            < len {
                            Some((len, (got + d@.len()) as u64))
                        } else {
                            None
                        },
                        None => a is Nothing && *final(self) == *old(self),
                    },
                },
            },
    {
        match f {
            Frame::Json(m) => match m {
                Msg::Out { rank, err } => {
                    self.out = Some((rank, err));
                    StreamAction::Nothing
                },
                Msg::OutFile { path, mode, len } => {
                    match clean_rel(path.as_str()) {
                        Ok(p) => {
                            if len > 0 {
                                self.file = Some((len, 0));
                            }
                            StreamAction::CreateFile {
                                path: p,
                                shown: path,
                                mode: (mode & 0o777) | 0o600,
                                fill: len > 0,
                            }
                        },
                        Err(e) => StreamAction::BadPath { reason: e },
                    }
                },
                Msg::Exit { code } => StreamAction::Exit { code },
                Msg::Warn { msg } => StreamAction::Warn { msg },
                Msg::Error { msg } => StreamAction::Fail { msg },
                _ => StreamAction::Nothing,
            },
            Frame::Raw(data) => {
                match self.out {
                    Some((rank, err)) => {
                        self.out = None;
                        StreamAction::Emit { rank, err, data }
                    },
                    None => match self.file {
                        Some((len, got)) => {
                            let got = got + data.len() as u64;
                            if got < len {
                                self.file = Some((len, got));
                            } else {
                                self.file = None;
                            }
                            StreamAction::Write { data }
                        },
                        None => StreamAction::Nothing,
                    },
                }
            },
        }
    }
}

/// What a reply means while the client waits for a particular message: a
/// warning is shown and the wait goes on, an error ends the run, anything
/// else is the reply.
pub enum WaitStep {
    Warn { msg: String },
    Fail { msg: String },
    Got { reply: Msg },
}

pub fn wait_step(m: Msg) -> (r: WaitStep)
    ensures
        match m {
            Msg::Warn { msg } => r matches WaitStep::Warn { msg: w } && w@ == msg@,
            Msg::Error { msg } => r matches WaitStep::Fail { msg: w } && w@ == msg@,
            _ => r == (WaitStep::Got { reply: m }),
        },
{
    match m {
        Msg::Warn { msg } => WaitStep::Warn { msg },
        Msg::Error { msg } => WaitStep::Fail { msg },
        _ => WaitStep::Got { reply: m },
    }
}

/// Why a run cannot start.
#[derive(Debug, PartialEq, Eq, Structural)]
pub enum RunError {
    /// A live workspace with more than one replica.
    LiveReplicas,
    /// A detached job with a live workspace.
    LiveDetach,
    /// A detached job with no server to run on.
    DetachNeedsServer,
}

impl RunError {
    pub fn message(&self) -> (r: &'static str)
        ensures
            r@ == match self {
                RunError::LiveReplicas => "live workspace requires replicas = 1"@,
                RunError::LiveDetach => "detach requires the sync workspace"@,
                RunError::DetachNeedsServer => "detach needs a server"@,
            },
    {
        match self {
            RunError::LiveReplicas => "live workspace requires replicas = 1",
            RunError::LiveDetach => "detach requires the sync workspace",
            RunError::DetachNeedsServer => "detach needs a server",
        }
    }
}

/// Whether a task can run: a live workspace has one replica and is not
/// detached, and a detached job needs a server.
pub fn check_run(t: &Task, detach: bool, has_servers: bool) -> (r: Result<(), RunError>)
    ensures
        r == if t.live && t.replicas > 1 {
            Err(RunError::LiveReplicas)
        } else if t.live && detach {
            Err(RunError::LiveDetach)
        } else if !has_servers && detach {
            Err(RunError::DetachNeedsServer)
        } else {
            Ok::<(), RunError>(())
        },
{
    if t.live && t.replicas > 1 {
        Err(RunError::LiveReplicas)
    } else if t.live && detach {
        Err(RunError::LiveDetach)
    } else if !has_servers && detach {
        Err(RunError::DetachNeedsServer)
    } else {
        Ok(())
    }
}

/// How many servers a run uses: one per replica, at most all of them.
pub fn wanted_servers(replicas: u32, servers: usize) -> (r: usize)
    ensures
        r as int == if (replicas as int) < servers as int {
            replicas as int
        } else {
            servers as int
        },
{
    if (replicas as u64) < (servers as u64) {
        replicas as usize
    } else {
        servers
    }
}

/// The runs of the first `n` tasks of a chain: the last task of the chain
/// gets the command line's arguments and, when asked, the live workspace;
/// tasks without a script only order their dependencies and are left out.
/// Each run comes with whether it is the last of the chain.
pub open spec fn chain_runs_upto(chain: Seq<TaskView>, n: int, live: bool, args: Seq<Seq<char>>) -> Seq<
    (TaskView, bool),
>
    decreases n + 1,
{
    if n < 0 || n > chain.len() {
        seq![]
    } else if n == 0 {
        seq![]
    } else {
        let i = n - 1;
        let last = i + 1 == chain.len();
        let t = chain[i];
        let t2 = if last {
            TaskView { live: t.live || live, args: args, ..t }
        } else {
            t
        };
        chain_runs_upto(chain, i, live, args) + if t2.script.len() == 0 {
            seq![]
        } else {
            seq![(t2, last)]
        }
    }
}

/// The tasks of a chain as they run, in order.
pub fn plan_chain(chain: &[&Task], live: bool, args: &[String]) -> (r: Vec<(Task, bool)>)
    ensures
        r@.map_values(|p: (Task, bool)| (p.0@, p.1)) == chain_runs_upto(
            chain@.map_values(|t: &Task| t@),
            chain@.len() as int,
            live,
            args.deep_view(),
        ),
{
    let ghost cv = chain@.map_values(|t: &Task| t@);
    let mut r: Vec<(Task, bool)> = Vec::new();
    let mut i: usize = 0;
    while i < chain.len()
        invariant
            i <= chain@.len(),
            cv == chain@.map_values(|t: &Task| t@),
            r@.map_values(|p: (Task, bool)| (p.0@, p.1)) == chain_runs_upto(cv, i as int, live, args.deep_view()),
        decreases chain@.len() - i,
    {
        let last = i + 1 == chain.len();
        let mut t = chain[i].duplicate();
        assert(cv[i as int] == chain@[i as int]@);
        if last {
            t.live = t.live || live;
            t.args = copy_all(args);
        }
        let ghost before = r@.map_values(|p: (Task, bool)| (p.0@, p.1));
        if chars_of(t.script.as_str()).len() > 0 {
            r.push((t, last));
            assert(r@.map_values(|p: (Task, bool)| (p.0@, p.1)) =~= before + seq![(t@, last)]);
        } else {
            assert(r@.map_values(|p: (Task, bool)| (p.0@, p.1)) =~= before + seq![]);
        }
        i += 1;
    }
    r
}

/// `s` padded with spaces to `w` characters (`{:<w}`).
pub open spec fn pad_right(s: Seq<char>, w: nat) -> Seq<char> {
    if s.len() >= w {
        s
    } else {
        s + Seq::new((w - s.len()) as nat, |i: int| ' ')
    }
}

/// Appends `s` padded with spaces to `w` characters.
fn push_padded(out: &mut Vec<char>, s: &str, w: usize)
    ensures
        final(out)@ == old(out)@ + pad_right(s@, w as nat),
{
    let c = chars_of(s);
    push_range(out, c.as_slice(), 0, c.len());
    assert(c@.subrange(0, c@.len() as int) =~= c@);
    let ghost mid = out@;
    let mut n: usize = c.len();
    while n < w
        invariant
            c@ == s@,
            c@.len() <= n <= w || (n == c@.len() && n >= w),
            out@ == mid + Seq::new((n - c@.len()) as nat, |i: int| ' '),
        decreases w - n,
    {
        out.push(' ');
        assert(Seq::new((n + 1 - c@.len()) as nat, |i: int| ' ') =~= Seq::new(
            (n - c@.len()) as nat,
            |i: int| ' ',
        ).push(' '));
        n += 1;
    }
    proof {
        if c@.len() >= w {
            assert(Seq::new(0nat, |i: int| ' ') =~= Seq::<char>::empty());
            assert(out@ =~= mid);
        }
    }
}

/// A task as the task list shows it: its name padded to 20 characters, the
/// first line of its script, `x<replicas>` for several replicas, and
/// `(live)` for a live workspace.
pub open spec fn task_line_spec(t: TaskView) -> Seq<char> {
    pad_right(t.name, 20) + seq![' '] + first_line(t.script) + (if t.replicas > 1 {
        " x"@ + dec(t.replicas as nat)
    } else {
        seq![]
    }) + (if t.live {
        " (live)"@
    } else {
        seq![]
    })
}

pub fn task_line(t: &Task) -> (r: String)
    ensures
        r@ == task_line_spec(t@),
{
    let mut v: Vec<char> = Vec::new();
    push_padded(&mut v, t.name.as_str(), 20);
    v.push(' ');
    let s = chars_of(t.script.as_str());
    let ls = split_lines(s.as_slice());
    if ls.len() > 0 {
        let l = &ls[0];
        assert(l@ == ls.deep_view()[0]);
        push_range(&mut v, l.as_slice(), 0, l.len());
        assert(l@.subrange(0, l@.len() as int) =~= l@);
    }
    let ghost a = v@;
    if t.replicas > 1 {
        push_str(&mut v, " x");
        push_dec(&mut v, t.replicas as u64);
    }
    let ghost b = v@;
    if t.live {
        push_str(&mut v, " (live)");
    }
    proof {
        let x = if t.replicas > 1 {
            " x"@ + dec(t.replicas as nat)
        } else {
            seq![]
        };
        let y = if t.live {
            " (live)"@
        } else {
            seq![]
        };
        assert(b =~= a + x);
        assert(v@ =~= b + y);
    }
    string_of(v.as_slice())
}

/// How `ps` shows a job: its id, its task's name padded to 20 characters,
/// `running` or `exit <code>` padded to 10, and the server's address.
pub open spec fn job_line_spec(job: Seq<char>, name: Seq<char>, code: Option<i32>, addr: Seq<char>) -> Seq<
    char,
> {
    let st = match code {
        Some(c) => "exit "@ + dec_int(c as int),
        None => "running"@,
    };
    job + "  "@ + pad_right(name, 20) + seq![' '] + pad_right(st, 10) + seq![' '] + addr
}

pub fn job_line(j: &JobInfo, addr: &str) -> (r: String)
    ensures
        r@ == job_line_spec(j.job@, j.name@, j.code, addr@),
{
    let mut st: Vec<char> = Vec::new();
    match j.code {
        Some(c) => {
            push_str(&mut st, "exit ");
            push_dec_i64(&mut st, c as i64);
        },
        None => push_str(&mut st, "running"),
    }
    let st_s = string_of(st.as_slice());
    let mut v: Vec<char> = Vec::new();
    push_str(&mut v, j.job.as_str());
    push_str(&mut v, "  ");
    push_padded(&mut v, j.name.as_str(), 20);
    v.push(' ');
    push_padded(&mut v, st_s.as_str(), 10);
    v.push(' ');
    push_str(&mut v, addr);
    assert(v@ =~= job_line_spec(j.job@, j.name@, j.code, addr@));
    string_of(v.as_slice())
}

/// The line that tells which ranks of a task a server runs: all of them,
/// or `ranks <first>-<last>`.
pub open spec fn running_line_spec(name: Seq<char>, rank0: u32, ranks: u32, world: u32, addr: Seq<char>) -> Seq<
    char,
> {
    if ranks == world {
        "running '"@ + name + "' on "@ + addr
    } else {
        "running '"@ + name + "' ranks "@ + dec(rank0 as nat) + seq!['-'] + dec(
            (rank0 + ranks - 1) as nat,
        ) + " on "@ + addr
    }
}

pub fn running_line(name: &str, rank0: u32, ranks: u32, world: u32, addr: &str) -> (r: String)
    requires
        ranks != world ==> 1 <= rank0 + ranks <= u32::MAX,
    ensures
        r@ == running_line_spec(name@, rank0, ranks, world, addr@),
{
    let mut v: Vec<char> = Vec::new();
    push_str(&mut v, "running '");
    push_str(&mut v, name);
    if ranks == world {
        push_str(&mut v, "' on ");
    } else {
        push_str(&mut v, "' ranks ");
        push_dec(&mut v, rank0 as u64);
        v.push('-');
        push_dec(&mut v, (rank0 + ranks - 1) as u64);
        push_str(&mut v, " on ");
    }
    push_str(&mut v, addr);
    assert(v@ =~= running_line_spec(name@, rank0, ranks, world, addr@));
    string_of(v.as_slice())
}

/// What the command line of exzec asks for.
pub struct Cli {
    pub live: bool,
    pub detach: bool,
    pub servers: Vec<String>,
    pub exfile: Option<String>,
    pub pos: Vec<String>,
}

/// The mathematical value of a [`Cli`].
pub struct CliView {
    pub live: bool,
    pub detach: bool,
    pub servers: Seq<Seq<char>>,
    pub exfile: Option<Seq<char>>,
    pub pos: Seq<Seq<char>>,
}

impl View for Cli {
    type V = CliView;

    open spec fn view(&self) -> CliView {
        CliView {
            live: self.live,
            detach: self.detach,
            servers: self.servers.deep_view(),
            exfile: match self.exfile {
                Some(f) => Some(f@),
                None => None,
            },
            pos: self.pos.deep_view(),
        }
    }
}

/// Why the command line of exzec is refused.
#[derive(Debug, PartialEq, Eq)]
pub enum CliError {
    /// `--server` at the end.
    ServerNeedsValue,
    /// `-f` or `--exfile` at the end.
    ExfileNeedsValue,
    /// A flag before any task name that exzec does not know.
    UnknownFlag { flag: String },
}

pub enum CliErrorView {
    ServerNeedsValue,
    ExfileNeedsValue,
    UnknownFlag { flag: Seq<char> },
}

impl View for CliError {
    type V = CliErrorView;

    open spec fn view(&self) -> CliErrorView {
        match self {
            CliError::ServerNeedsValue => CliErrorView::ServerNeedsValue,
            CliError::ExfileNeedsValue => CliErrorView::ExfileNeedsValue,
            CliError::UnknownFlag { flag } => CliErrorView::UnknownFlag { flag: flag@ },
        }
    }
}

impl CliError {
    pub fn message(&self) -> (r: String)
        ensures
            r@ == match self {
                CliError::ServerNeedsValue => "--server needs [token@]host[:port]"@,
                CliError::ExfileNeedsValue => "-f needs a path"@,
                CliError::UnknownFlag { flag } => "unknown flag '"@ + flag@ + "'"@,
            },
    {
        match self {
            CliError::ServerNeedsValue => string_of_str("--server needs [token@]host[:port]"),
            CliError::ExfileNeedsValue => string_of_str("-f needs a path"),
            CliError::UnknownFlag { flag } => {
                let mut v: Vec<char> = Vec::new();
                push_str(&mut v, "unknown flag '");
                push_str(&mut v, flag.as_str());
                push_str(&mut v, "'");
                string_of(v.as_slice())
            },
        }
    }
}

/// The command line of exzec read from argument `i` on: `--live`,
/// `--detach` (`-d`), `--server` and `--exfile` (`-f`) with their values,
/// `--help` (`-h`, which ends the reading: `None`), and positional words;
/// a word with a leading `-` is refused as an unknown flag only while no
/// positional word has come, and is positional after.
pub open spec fn cli_from(args: Seq<Seq<char>>, i: int, st: CliView) -> Result<Option<CliView>, CliErrorView>
    decreases args.len() - i,
{
    if i < 0 || i >= args.len() {
        Ok(Some(st))
    } else {
        let a = args[i];
        if a == "--live"@ {
            cli_from(args, i + 1, CliView { live: true, ..st })
        } else if a == "--detach"@ || a == "-d"@ {
            cli_from(args, i + 1, CliView { detach: true, ..st })
        } else if a == "--server"@ {
            if i + 1 < args.len() {
                cli_from(args, i + 2, CliView { servers: st.servers.push(args[i + 1]), ..st })
            } else {
                Err(CliErrorView::ServerNeedsValue)
            }
        } else if a == "--exfile"@ || a == "-f"@ {
            if i + 1 < args.len() {
                cli_from(args, i + 2, CliView { exfile: Some(args[i + 1]), ..st })
            } else {
                Err(CliErrorView::ExfileNeedsValue)
            }
        } else if a == "-h"@ || a == "--help"@ {
            Ok(None)
        } else if a.len() > 0 && a[0] == '-' && st.pos.len() == 0 {
            Err(CliErrorView::UnknownFlag { flag: a })
        } else {
            cli_from(args, i + 1, CliView { pos: st.pos.push(a), ..st })
        }
    }
}

/// Nothing asked for yet.
pub open spec fn cli_start() -> CliView {
    CliView { live: false, detach: false, servers: seq![], exfile: None, pos: seq![] }
}

/// Reads the arguments of exzec (without the program name): what they ask
/// for, or `None` when they ask for help.
pub fn parse_cli(args: &[String]) -> (r: Result<Option<Cli>, CliError>)
    ensures
        match r {
            Ok(Some(c)) => cli_from(args.deep_view(), 0, cli_start()) == Ok::<
                Option<CliView>,
                CliErrorView,
            >(Some(c@)),
            Ok(None) => cli_from(args.deep_view(), 0, cli_start()) == Ok::<
                Option<CliView>,
                CliErrorView,
            >(None),
            Err(e) => cli_from(args.deep_view(), 0, cli_start()) == Err::<Option<CliView>, CliErrorView>(
                e@,
            ),
        },
{
    let mut c = Cli { live: false, detach: false, servers: Vec::new(), exfile: None, pos: Vec::new() };
    assert(c@ == cli_start()) by {
        assert(c.servers.deep_view() =~= Seq::<Seq<char>>::empty());
        assert(c.pos.deep_view() =~= Seq::<Seq<char>>::empty());
    }
    let ghost av = args.deep_view();
    let mut i: usize = 0;
    while i < args.len()
        invariant
            i <= args@.len(),
            av == args.deep_view(),
            cli_from(av, 0, cli_start()) == cli_from(av, i as int, c@),
        decreases args@.len() - i,
    {
        let a = args[i].as_str();
        assert(a@ == av[i as int]);
        let ac = chars_of(a);
        if eq_lit(a, "--live") {
            c.live = true;
            i += 1;
        } else if eq_lit(a, "--detach") || eq_lit(a, "-d") {
            c.detach = true;
            i += 1;
        } else if eq_lit(a, "--server") {
            if i + 1 < args.len() {
                let ghost before = c.servers.deep_view();
                let v = args[i + 1].clone();
                assert(v@ == av[i + 1]);
                c.servers.push(v);
                assert(c.servers.deep_view() =~= before.push(av[i + 1]));
                i += 2;
            } else {
                return Err(CliError::ServerNeedsValue);
            }
        } else if eq_lit(a, "--exfile") || eq_lit(a, "-f") {
            if i + 1 < args.len() {
                let v = args[i + 1].clone();
                assert(v@ == av[i + 1]);
                c.exfile = Some(v);
                i += 2;
            } else {
                return Err(CliError::ExfileNeedsValue);
            }
        } else if eq_lit(a, "-h") || eq_lit(a, "--help") {
            return Ok(None);
        } else if ac.len() > 0 && ac[0] == '-' && c.pos.len() == 0 {
            return Err(CliError::UnknownFlag { flag: string_of_str(a) });
        } else {
            let ghost before = c.pos.deep_view();
            c.pos.push(string_of_str(a));
            assert(c.pos.deep_view() =~= before.push(av[i as int]));
            i += 1;
        }
    }
    Ok(Some(c))
}

/// Whether a string is the given literal.
pub fn eq_lit(s: &str, lit: &str) -> (r: bool)
    ensures
        r == (s@ == lit@),
{
    let c = chars_of(s);
    crate::text::eq_str(c.as_slice(), lit)
}

/// The user's configuration directory: `$XDG_CONFIG_HOME`, else
/// `$HOME/.config`, else none.
pub open spec fn config_dir_spec(xdg: Option<Seq<char>>, home: Option<Seq<char>>) -> Option<Seq<char>> {
    match xdg {
        Some(x) => Some(x),
        None => match home {
            Some(h) => Some(path_join(h, ".config"@)),
            None => None,
        },
    }
}

pub fn config_dir(xdg: Option<&str>, home: Option<&str>) -> (r: Option<String>)
    ensures
        match r {
            Some(d) => config_dir_spec(
                match xdg {
                    Some(x) => Some(x@),
                    None => None,
                },
                match home {
                    Some(h) => Some(h@),
                    None => None,
                },
            ) == Some(d@),
            None => xdg is None && home is None,
        },
{
    match xdg {
        Some(x) => Some(string_of_str(x)),
        None => match home {
            Some(h) => {
                let c = chars_of(".config");
                Some(join_path(h, c.as_slice()))
            },
            None => None,
        },
    }
}

/// Where a session with a server stands after its hello.
#[derive(Clone, Copy, Debug, PartialEq, Eq, Structural)]
pub enum Phase {
    /// Waiting for the id of the tunnel of a live workspace.
    AwaitTunnel,
    /// Waiting for the list of blobs the server lacks.
    AwaitNeed,
    /// Waiting for the id of a detached job.
    AwaitStarted,
    /// Waiting for the server to start the job.
    AwaitReady,
    /// The job runs; its stream follows.
    Streaming,
    /// The session is over.
    Done,
}

/// What the client does with a reply during a session.
pub enum SessionAction {
    /// Serve the workspace and join the tunnel with this id.
    JoinTunnel { tunnel: String },
    /// Upload the blobs with these hashes.
    Upload { hashes: Vec<String> },
    /// The job was handed over with this id; the session ends.
    Detached { job: String },
    /// The job starts; read its stream.
    Stream,
    /// Show a warning of the server and wait on.
    Warn { msg: String },
    /// The server failed the job.
    Fail { msg: String },
    /// A reply that does not fit.
    Unexpected,
}

/// The phase after the hello: a live workspace waits for its tunnel, a
/// synced one for the server's list of missing blobs.
pub open spec fn first_phase(live: bool) -> Phase {
    if live {
        Phase::AwaitTunnel
    } else {
        Phase::AwaitNeed
    }
}

/// The phase after the workspace is in place.
pub open spec fn after_workspace(detach: bool) -> Phase {
    if detach {
        Phase::AwaitStarted
    } else {
        Phase::AwaitReady
    }
}

/// A session of the client with one server.
pub struct Session {
    pub phase: Phase,
    pub detach: bool,
}

impl Session {
    pub fn new(live: bool, detach: bool) -> (r: Session)
        ensures
            r.phase == first_phase(live),
            r.detach == detach,
    {
        Session { phase: if live { Phase::AwaitTunnel } else { Phase::AwaitNeed }, detach }
    }

    /// Takes the next reply: warnings are shown and errors end the session in
    /// every phase; otherwise only the reply the phase waits for moves it on.
    pub fn step(&mut self, m: Msg) -> (a: SessionAction)
        ensures
            final(self).detach == old(self).detach,
            match m {
                Msg::Warn { msg } => a matches SessionAction::Warn { msg: w } && w@ == msg@
                    && final(self).phase == old(self).phase,
                Msg::Error { msg } => a matches SessionAction::Fail { msg: w } && w@ == msg@
                    && final(self).phase == Phase::Done,
                Msg::TunnelReady { tunnel } if old(self).phase == Phase::AwaitTunnel => a matches SessionAction::JoinTunnel {
                    tunnel: t,
                } && t@ == tunnel@ && final(self).phase == after_workspace(old(self).detach),
                Msg::Need { hashes } if old(self).phase == Phase::AwaitNeed => a matches SessionAction::Upload {
                    hashes: h,
                } && h.deep_view() == hashes.deep_view() && final(self).phase == after_workspace(
                    old(self).detach,
                ),
                Msg::Started { job } if old(self).phase == Phase::AwaitStarted => a matches SessionAction::Detached {
                    job: j,
                } && j@ == job@ && final(self).phase == Phase::Done,
                Msg::Ready if old(self).phase == Phase::AwaitReady => a is Stream && final(self).phase
                    == Phase::Streaming,
                _ => a is Unexpected && final(self).phase == Phase::Done,
            },
    {
        match m {
            Msg::Warn { msg } => SessionAction::Warn { msg },
            Msg::Error { msg } => {
                self.phase = Phase::Done;
                SessionAction::Fail { msg }
            },
            Msg::TunnelReady { tunnel } if self.phase == Phase::AwaitTunnel => {
                self.phase = if self.detach { Phase::AwaitStarted } else { Phase::AwaitReady };
                SessionAction::JoinTunnel { tunnel }
            },
            Msg::Need { hashes } if self.phase == Phase::AwaitNeed => {
                self.phase = if self.detach { Phase::AwaitStarted } else { Phase::AwaitReady };
                SessionAction::Upload { hashes }
            },
            Msg::Started { job } if self.phase == Phase::AwaitStarted => {
                self.phase = Phase::Done;
                SessionAction::Detached { job }
            },
            Msg::Ready if self.phase == Phase::AwaitReady => {
                self.phase = Phase::Streaming;
                SessionAction::Stream
            },
            _ => {
                self.phase = Phase::Done;
                SessionAction::Unexpected
            },
        }
    }
}

} // verus!
