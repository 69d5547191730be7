use exzet::client::{
    parse_cli, CliError, Phase, Session, SessionAction,
    all_servers, check_run, config_entries, first_nonzero_of, job_line, main_host, parse_entry,
    pick_entries, plan_chain, plan_ranks, prefixed, running_line, task_line, wait_step,
    wanted_servers, LineBuffers, RunError, StreamAction, StreamState, WaitStep,
};
use exzet::exfile::Task;
use exzet::proto::{Frame, JobInfo, Msg, PathError};

fn strings(v: &[&str]) -> Vec<String> {
    v.iter().map(|s| s.to_string()).collect()
}

#[test]
fn server_entries() {
    let s = parse_entry("tok@host");
    assert_eq!((s.addr.as_str(), s.token.as_str()), ("host:7433", "tok"));
    let s = parse_entry("host:8000");
    assert_eq!((s.addr.as_str(), s.token.as_str()), ("host:8000", ""));
    let s = parse_entry("t@[::1]:9");
    assert_eq!(s.addr, "[::1]:9");
    let s = parse_entry("::1");
    assert_eq!(s.addr, "::1:7433");
    let s = parse_entry("a@b@c:x");
    assert_eq!((s.addr.as_str(), s.token.as_str()), ("b@c:x:7433", "a"));
}

#[test]
fn entries_come_from_the_first_source_that_has_some() {
    let cli = strings(&["a"]);
    let task = strings(&["b"]);
    let conf = strings(&["c"]);
    assert_eq!(pick_entries(&cli, &task, &conf), cli);
    assert_eq!(pick_entries(&[], &task, &conf), task);
    assert_eq!(pick_entries(&[], &[], &conf), conf);
}

#[test]
fn configuration_lines() {
    let v = config_entries("# servers\n  t@a:1  \n\n#x\nb\r\n");
    assert_eq!(v, strings(&["t@a:1", "b"]));
}

#[test]
fn servers_of_all_tasks_once() {
    let mut a = Task::default();
    a.servers = strings(&["x", "y"]);
    let mut b = Task::default();
    b.servers = strings(&["y", "z", "x"]);
    assert_eq!(all_servers(&[a, b]), strings(&["x", "y", "z"]));
}

#[test]
fn ranks_spread_evenly_over_servers() {
    assert_eq!(plan_ranks(5, 2), vec![(0, 3), (3, 2)]);
    assert_eq!(plan_ranks(4, 4), vec![(0, 1), (1, 1), (2, 1), (3, 1)]);
    assert_eq!(plan_ranks(1, 1), vec![(0, 1)]);
    assert_eq!(wanted_servers(4, 2), 2);
    assert_eq!(wanted_servers(1, 3), 1);
}

#[test]
fn address_of_rank_zero() {
    assert_eq!(main_host("10.0.0.1:7433", 1), "127.0.0.1");
    assert_eq!(main_host("10.0.0.1:7433", 2), "10.0.0.1");
    assert_eq!(main_host("[fe80::1]:7433", 3), "fe80::1");
    assert_eq!(main_host("nocolon", 2), "127.0.0.1");
}

#[test]
fn first_nonzero_code_wins() {
    assert_eq!(first_nonzero_of(&[0, 0, 0]), 0);
    assert_eq!(first_nonzero_of(&[0, 3, 1]), 3);
    assert_eq!(first_nonzero_of(&[]), 0);
}

#[test]
fn output_lines_are_prefixed_by_rank() {
    assert_eq!(prefixed(12, b"x\n"), b"[12] x\n".to_vec());
    let mut lb = LineBuffers::new();
    assert_eq!(lb.emit(2, 0, false, b"hel"), Vec::<Vec<u8>>::new());
    assert_eq!(lb.emit(2, 1, false, b"one\ntw"), vec![b"[1] one\n".to_vec()]);
    assert_eq!(lb.emit(2, 0, false, b"lo\nbye\n"), vec![b"[0] hello\n".to_vec(), b"[0] bye\n".to_vec()]);
    assert_eq!(lb.emit(2, 1, true, b"e"), Vec::<Vec<u8>>::new());
    let rest = lb.flush();
    assert_eq!(rest, vec![(false, b"[1] tw\n".to_vec()), (true, b"[1] e\n".to_vec())]);
    assert_eq!(lb.flush(), Vec::new());
}

#[test]
fn single_rank_output_passes_through() {
    let mut lb = LineBuffers::new();
    assert_eq!(lb.emit(1, 0, false, b"partial"), vec![b"partial".to_vec()]);
    assert_eq!(lb.flush(), Vec::new());
}

#[test]
fn long_output_without_line_feed_is_written_at_once() {
    let mut lb = LineBuffers::new();
    let big = vec![b'a'; (1 << 20) + 1];
    let w = lb.emit(3, 2, false, &big);
    assert_eq!(w.len(), 1);
    assert_eq!(&w[0][..4], b"[2] ");
    assert_eq!(w[0].len(), 4 + (1 << 20) + 1);
    assert_eq!(lb.flush(), Vec::new());
}

#[test]
fn stream_of_a_job() {
    let mut st = StreamState::new();
    assert!(matches!(st.step(Frame::Json(Msg::Out { rank: 1, err: true })), StreamAction::Nothing));
    match st.step(Frame::Raw(b"data".to_vec())) {
        StreamAction::Emit { rank, err, data } => {
            assert_eq!((rank, err, data), (1, true, b"data".to_vec()));
        }
        _ => panic!("expected output"),
    }
    assert!(matches!(st.step(Frame::Raw(b"stray".to_vec())), StreamAction::Nothing));
    match st.step(Frame::Json(Msg::OutFile { path: "./out/a.bin".to_string(), mode: 0o100644, len: 5 })) {
        StreamAction::CreateFile { path, shown, mode, fill } => {
            assert!(fill);
            assert_eq!(path, "out/a.bin");
            assert_eq!(shown, "./out/a.bin");
            assert_eq!(mode, 0o644);
        }
        _ => panic!("expected a file"),
    }
    assert!(matches!(st.step(Frame::Raw(b"abc".to_vec())), StreamAction::Write { .. }));
    assert_eq!(st.file, Some((5, 3)));
    assert!(matches!(st.step(Frame::Raw(b"de".to_vec())), StreamAction::Write { .. }));
    assert_eq!(st.file, None);
    assert!(matches!(
        st.step(Frame::Json(Msg::OutFile { path: "../evil".to_string(), mode: 0, len: 1 })),
        StreamAction::BadPath { reason: PathError::Unsafe }
    ));
    assert!(matches!(st.step(Frame::Json(Msg::Exit { code: 7 })), StreamAction::Exit { code: 7 }));
    match st.step(Frame::Json(Msg::Error { msg: "boom".to_string() })) {
        StreamAction::Fail { msg } => assert_eq!(msg, "boom"),
        _ => panic!("expected a failure"),
    }
}

#[test]
fn waiting_skips_warnings() {
    assert!(matches!(wait_step(Msg::Warn { msg: "w".to_string() }), WaitStep::Warn { .. }));
    assert!(matches!(wait_step(Msg::Error { msg: "e".to_string() }), WaitStep::Fail { .. }));
    assert!(matches!(wait_step(Msg::Ready), WaitStep::Got { reply: Msg::Ready }));
}

#[test]
fn runs_that_cannot_start() {
    let mut t = Task::default();
    t.replicas = 2;
    t.live = true;
    assert_eq!(check_run(&t, false, true), Err(RunError::LiveReplicas));
    t.replicas = 1;
    assert_eq!(check_run(&t, true, true), Err(RunError::LiveDetach));
    t.live = false;
    assert_eq!(check_run(&t, true, false), Err(RunError::DetachNeedsServer));
    assert_eq!(check_run(&t, false, false), Ok(()));
    assert_eq!(RunError::LiveDetach.message(), "detach requires the sync workspace");
}

#[test]
fn chain_of_tasks_as_run() {
    let mut a = Task::default();
    a.name = "a".to_string();
    let mut b = Task::default();
    b.name = "b".to_string();
    b.script = "echo b".to_string();
    let mut c = Task::default();
    c.name = "c".to_string();
    c.script = "echo c".to_string();
    let runs = plan_chain(&[&a, &b, &c], true, &strings(&["--x"]));
    assert_eq!(runs.len(), 2);
    assert_eq!(runs[0].0.name, "b");
    assert!(!runs[0].1 && !runs[0].0.live && runs[0].0.args.is_empty());
    assert_eq!(runs[1].0.name, "c");
    assert!(runs[1].1 && runs[1].0.live);
    assert_eq!(runs[1].0.args, strings(&["--x"]));
}

#[test]
fn listing_lines() {
    let mut t = Task::default();
    t.name = "build".to_string();
    t.script = "cargo build\nstrip".to_string();
    t.replicas = 3;
    t.live = true;
    assert_eq!(task_line(&t), "build                cargo build x3 (live)");
    let j = JobInfo { job: "ab12".to_string(), name: "build".to_string(), code: Some(-1) };
    assert_eq!(job_line(&j, "h:1"), "ab12  build                exit -1    h:1");
    let j = JobInfo { job: "cd34".to_string(), name: "t".to_string(), code: None };
    assert_eq!(job_line(&j, "h:1"), "cd34  t                    running    h:1");
    assert_eq!(running_line("t", 0, 4, 4, "h:1"), "running 't' on h:1");
    assert_eq!(running_line("t", 2, 2, 4, "h:1"), "running 't' ranks 2-3 on h:1");
}

#[test]
fn command_line_of_the_client() {
    let c = parse_cli(&strings(&["--live", "-f", "x/exfile", "--server", "t@h", "build", "--flag", "-d"]))
        .unwrap()
        .unwrap();
    assert!(c.live && c.detach);
    assert_eq!(c.exfile, Some("x/exfile".to_string()));
    assert_eq!(c.servers, strings(&["t@h"]));
    assert_eq!(c.pos, strings(&["build", "--flag"]));
    assert!(parse_cli(&strings(&["-h", "--bogus"])).unwrap().is_none());
    assert_eq!(parse_cli(&strings(&["--server"])).err(), Some(CliError::ServerNeedsValue));
    assert_eq!(parse_cli(&strings(&["-f"])).err(), Some(CliError::ExfileNeedsValue));
    let e = parse_cli(&strings(&["--bogus"])).err().unwrap();
    assert_eq!(e.message(), "unknown flag '--bogus'");
}

#[test]
fn configuration_directory() {
    assert_eq!(exzet::client::config_dir(Some("/x"), Some("/home/u")), Some("/x".to_string()));
    assert_eq!(exzet::client::config_dir(None, Some("/home/u")), Some("/home/u/.config".to_string()));
    assert_eq!(exzet::client::config_dir(None, Some("/home/u/")), Some("/home/u/.config".to_string()));
    assert_eq!(exzet::client::config_dir(None, None), None);
}

#[test]
fn session_replies_in_order() {
    let mut s = Session::new(false, false);
    assert_eq!(s.phase, Phase::AwaitNeed);
    assert!(matches!(s.step(Msg::Warn { msg: "w".to_string() }), SessionAction::Warn { .. }));
    assert_eq!(s.phase, Phase::AwaitNeed);
    match s.step(Msg::Need { hashes: strings(&["h"]) }) {
        SessionAction::Upload { hashes } => assert_eq!(hashes, strings(&["h"])),
        _ => panic!("expected an upload"),
    }
    assert_eq!(s.phase, Phase::AwaitReady);
    assert!(matches!(s.step(Msg::Ready), SessionAction::Stream));
    assert_eq!(s.phase, Phase::Streaming);
    let mut d = Session::new(true, true);
    assert!(matches!(d.step(Msg::Ready), SessionAction::Unexpected));
    let mut d = Session::new(true, true);
    assert!(matches!(d.step(Msg::TunnelReady { tunnel: "t".to_string() }), SessionAction::JoinTunnel { .. }));
    assert_eq!(d.phase, Phase::AwaitStarted);
    match d.step(Msg::Started { job: "j".to_string() }) {
        SessionAction::Detached { job } => assert_eq!(job, "j"),
        _ => panic!("expected a job id"),
    }
    let mut e = Session::new(false, false);
    assert!(matches!(e.step(Msg::Error { msg: "no".to_string() }), SessionAction::Fail { .. }));
}
