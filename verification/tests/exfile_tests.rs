use exzet::exfile::{parse, parse_dotenv, pick_exfile, schedule, try_parse, ExfileError, Pick, Task};

fn no_env() -> Vec<(String, String)> {
    Vec::new()
}

const SAMPLE: &str = "\
# a sample
servers := tok@build-host:7433
RUST_LOG := info

build:
    cargo build --release
    strip target/release/app

[replicas: 4, cpus: 2, mem: 1g, time: 10m]
test: build
    cargo test -- --shard $EXZET_RANK

[image: rust:1, gpus: 1, outputs: ./dist/ target/out]
package: build test
    make dist
";

#[test]
fn parses_tasks_in_file_order() {
    let tasks = parse(SAMPLE, &no_env()).unwrap();
    let names: Vec<&str> = tasks.iter().map(|t| t.name.as_str()).collect();
    assert_eq!(names, vec!["build", "test", "package"]);
    assert_eq!(tasks[0].script, "cargo build --release\nstrip target/release/app");
    assert_eq!(tasks[0].servers, vec!["tok@build-host:7433".to_string()]);
    assert_eq!(tasks[0].env, vec![("RUST_LOG".to_string(), "info".to_string())]);
    assert_eq!(tasks[0].replicas, 1);
    assert_eq!(tasks[1].deps, vec!["build".to_string()]);
    assert_eq!(tasks[1].replicas, 4);
    assert_eq!(tasks[1].cpus, Some(2));
    assert_eq!(tasks[1].mem_bytes, Some(1 << 30));
    assert_eq!(tasks[1].time_secs, Some(600));
    assert_eq!(tasks[2].image, Some("rust:1".to_string()));
    assert_eq!(tasks[2].gpus, 1);
    assert_eq!(tasks[2].outputs, vec!["dist".to_string(), "target/out".to_string()]);
    assert_eq!(tasks[2].deps, vec!["build".to_string(), "test".to_string()]);
}

#[test]
fn attributes_apply_to_the_next_task_only() {
    let tasks = parse("[replicas: 3]\na:\n  echo a\nb:\n  echo b\n", &no_env()).unwrap();
    assert_eq!(tasks[0].replicas, 3);
    assert_eq!(tasks[1].replicas, 1);
}

#[test]
fn dotenv_variables_expand_and_start_every_environment() {
    let env = vec![("HOST".to_string(), "example.org".to_string())];
    let tasks = parse("servers := t@${HOST}\nrun:\n  true\n", &env).unwrap();
    assert_eq!(tasks[0].servers, vec!["t@example.org".to_string()]);
    assert_eq!(tasks[0].env, env);
}

#[test]
fn sizes_and_durations_scale_by_their_unit() {
    let tasks = parse("[mem: 64G, disk: 2t, time: 12h]\nrun:\n  true\n", &no_env()).unwrap();
    assert_eq!(tasks[0].mem_bytes, Some(64u64 << 30));
    assert_eq!(tasks[0].disk_bytes, Some(2u64 << 40));
    assert_eq!(tasks[0].time_secs, Some(12 * 3600));
    let tasks = parse("[time: 90, mem: 512k]\nrun:\n  true\n", &no_env()).unwrap();
    assert_eq!(tasks[0].time_secs, Some(90));
    assert_eq!(tasks[0].mem_bytes, Some(512 * 1024));
}

#[test]
fn replicas_are_at_least_one() {
    let tasks = parse("[replicas: 0]\nrun:\n  true\n", &no_env()).unwrap();
    assert_eq!(tasks[0].replicas, 1);
}

#[test]
fn workspace_live_sets_live() {
    let tasks = parse("[workspace: live]\nrun:\n  true\n", &no_env()).unwrap();
    assert!(tasks[0].live);
}

fn err_of(text: &str) -> ExfileError {
    match parse(text, &no_env()) {
        Err(e) => e,
        Ok(_) => panic!("expected an error"),
    }
}

#[test]
fn each_error_of_the_file() {
    assert!(matches!(err_of(""), ExfileError::NoTasks));
    assert!(matches!(err_of("[cpus: 1\nrun:\n  true\n"), ExfileError::ExpectedAttrs { line: 1 }));
    assert!(matches!(err_of("[cpus 1]\nrun:\n  true\n"), ExfileError::ExpectedKeyValue { line: 1 }));
    assert!(matches!(err_of("A := ${B\nrun:\n  true\n"), ExfileError::UnclosedVar { line: 1 }));
    assert!(matches!(err_of("A := ${B}\nrun:\n  true\n"), ExfileError::UndefinedVar { line: 1, .. }));
    assert!(matches!(err_of("9run:\n  true\n"), ExfileError::InvalidName { line: 1, .. }));
    assert!(matches!(err_of("ps:\n  true\n"), ExfileError::InvalidName { line: 1, .. }));
    assert!(matches!(err_of("run: b@d\n  true\n"), ExfileError::InvalidDep { line: 1, .. }));
    assert!(matches!(err_of("what is this\n"), ExfileError::Unrecognized { line: 1, .. }));
    assert!(matches!(err_of("run:\n  true\n[cpus: 1]\n"), ExfileError::DanglingAttrs { line: 3 }));
    assert!(matches!(err_of("run:\n"), ExfileError::EmptyBody { line: 1, .. }));
    assert!(matches!(err_of("[workspace: live, replicas: 2]\nrun:\n  true\n"), ExfileError::LiveReplicas { .. }));
    assert!(matches!(err_of("[gpus: 1]\nrun:\n  true\n"), ExfileError::GpusWithoutImage { .. }));
    assert!(matches!(err_of("run:\n  true\nrun:\n  false\n"), ExfileError::Duplicate { .. }));
    assert!(matches!(err_of("shell :=   \nrun:\n  true\n"), ExfileError::EmptyShell { line: 1 }));
    assert!(matches!(err_of("[cpus: two]\nrun:\n  true\n"), ExfileError::BadNumber { line: 1, .. }));
    assert!(matches!(err_of("[mem: lots]\nrun:\n  true\n"), ExfileError::BadSize { line: 1, .. }));
    assert!(matches!(err_of("[time: soon]\nrun:\n  true\n"), ExfileError::BadDuration { line: 1, .. }));
    assert!(matches!(err_of("[workspace: cloud]\nrun:\n  true\n"), ExfileError::BadWorkspace { line: 1 }));
    assert!(matches!(err_of("[colour: red]\nrun:\n  true\n"), ExfileError::UnknownKey { line: 1, .. }));
    assert!(matches!(err_of("a: b\n  true\nb: a\n  true\n"), ExfileError::Cycle { .. }));
    assert!(matches!(err_of("a: nope\n  true\n"), ExfileError::UnknownDep { .. }));
}

#[test]
fn schedule_puts_dependencies_first() {
    let tasks = parse(SAMPLE, &no_env()).unwrap();
    let chain = schedule(&tasks, "package").unwrap();
    let names: Vec<&str> = chain.iter().map(|t| t.name.as_str()).collect();
    assert_eq!(names, vec!["build", "test", "package"]);
    let chain = schedule(&tasks, "build").unwrap();
    assert_eq!(chain.len(), 1);
    assert!(matches!(schedule(&tasks, "deploy"), Err(ExfileError::NoSuchTask { .. })));
}

#[test]
fn indentation_cut_inside_a_character_is_refused() {
    // The body's common indentation is two bytes; the first line's second
    // byte lies inside an ideographic space.
    let text = "run:\n \u{3000}x\n  y\n";
    assert!(try_parse(text, &no_env()).is_none());
    assert!(try_parse("run:\n  x\n", &no_env()).is_some());
}

#[test]
fn dotenv_lines() {
    let vars = parse_dotenv("export A=1\n# comment\n B = 'x y' \n\nNOEQUALS\nC=\"q\"\r\n");
    assert_eq!(
        vars,
        vec![
            ("A".to_string(), "1".to_string()),
            ("B".to_string(), "x y".to_string()),
            ("C".to_string(), "q".to_string()),
        ]
    );
}

#[test]
fn exfile_in_a_directory() {
    assert!(matches!(pick_exfile(true, &["x.exfile".to_string()]), Pick::Plain));
    assert!(matches!(pick_exfile(false, &["README".to_string(), ".exfile".to_string()]), Pick::Nothing));
    match pick_exfile(false, &["a.txt".to_string(), "ci.exfile".to_string()]) {
        Pick::Named(n) => assert_eq!(n, "ci.exfile"),
        other => panic!("{other:?}"),
    }
    match pick_exfile(false, &["z.exfile".to_string(), "b.exfile".to_string()]) {
        Pick::Ambiguous(v) => assert_eq!(v, vec!["b.exfile".to_string(), "z.exfile".to_string()]),
        other => panic!("{other:?}"),
    }
}

#[test]
fn default_task_is_empty() {
    let t = Task::default();
    assert!(t.name.is_empty() && t.replicas == 0 && t.image.is_none());
}

#[test]
fn defaults_reach_every_task_of_the_file() {
    let tasks = parse("a:\n  x\ncpus := 4\nb:\n  y\n", &no_env()).unwrap();
    assert_eq!(tasks[0].name, "a");
    assert_eq!(tasks[0].cpus, Some(4));
    assert_eq!(tasks[1].name, "b");
    assert_eq!(tasks[1].cpus, Some(4));
}

#[test]
fn own_attributes_win_over_defaults() {
    let tasks = parse("[cpus: 2]\na:\n  x\ncpus := 4\nb:\n  y\n", &no_env()).unwrap();
    assert_eq!(tasks[0].cpus, Some(2));
    assert_eq!(tasks[1].cpus, Some(4));
}

#[test]
fn later_variables_join_every_environment() {
    let env = vec![("HOST".to_string(), "example.org".to_string())];
    let tasks = parse("[A: 1]\na:\n  x\nB := 2\n", &env).unwrap();
    assert_eq!(
        tasks[0].env,
        vec![
            ("HOST".to_string(), "example.org".to_string()),
            ("B".to_string(), "2".to_string()),
            ("A".to_string(), "1".to_string()),
        ]
    );
}

#[test]
fn later_defaults_are_checked_against_each_task() {
    assert!(matches!(
        err_of("[workspace: live]\na:\n  x\nreplicas := 2\n"),
        ExfileError::LiveReplicas { .. }
    ));
    assert!(matches!(err_of("a:\n  x\ngpus := 1\n"), ExfileError::GpusWithoutImage { .. }));
    let tasks = parse("[gpus: 1]\na:\n  x\nimage := rust:1\n", &no_env()).unwrap();
    assert_eq!(tasks[0].image, Some("rust:1".to_string()));
}

#[test]
fn sizes_too_large_for_64_bits_are_refused() {
    assert!(matches!(err_of("[disk: 16777216t]\nrun:\n  true\n"), ExfileError::BadSize { line: 1, .. }));
    assert!(matches!(
        err_of("[time: 213503982334602d]\nrun:\n  true\n"),
        ExfileError::BadDuration { line: 1, .. }
    ));
    let tasks = parse("[disk: 16777215t]\nrun:\n  true\n", &no_env()).unwrap();
    assert_eq!(tasks[0].disk_bytes, Some(16777215u64 << 40));
}

#[test]
fn error_messages_of_the_file() {
    assert_eq!(err_of("a:\n").message(), "task 'a' (line 1) has an empty body");
    assert_eq!(err_of("a:\n  x\n[cpus: 1]\n").message(), "line 3: attributes without a following task");
    assert_eq!(err_of("a:\n  x\na:\n  y\n").message(), "task 'a' defined twice");
    assert_eq!(err_of("a: b\n  x\nb: a\n  y\n").message(), "dependency cycle at 'a'");
    assert_eq!(
        err_of("[workspace: live, replicas: 2]\na:\n  x\n").message(),
        "task 'a': live workspace requires replicas = 1"
    );
    assert_eq!(err_of("gpus := 1\na:\n  x\n").message(), "task 'a': gpus requires an image");
    assert_eq!(err_of("").message(), "no tasks defined");
    assert_eq!(err_of("[cpus: two]\nrun:\n  true\n").message(), "line 1: expected a number, got 'two'");
    assert_eq!(
        err_of("[colour: red]\nrun:\n  true\n").message(),
        "line 1: unknown key 'colour' (UPPERCASE keys define env vars)"
    );
    assert_eq!(err_of("A := ${B\nrun:\n  true\n").message(), "line 1: unclosed ${");
    assert_eq!(err_of("[mem: lots]\nrun:\n  true\n").message(), "line 1: expected a value like 64g, got 'lots'");
}

#[test]
fn unknown_dependency_message() {
    let t = Task { name: "a".to_string(), deps: vec!["b".to_string()], ..Task::default() };
    let tasks = vec![t];
    match schedule(&tasks, "a") {
        Err(e) => assert_eq!(e.message(), "task 'a' depends on unknown task 'b'"),
        Ok(_) => panic!("expected an error"),
    }
    match schedule(&tasks, "zz") {
        Err(e) => assert_eq!(e.message(), "no task 'zz'"),
        Ok(_) => panic!("expected an error"),
    }
}

#[test]
fn live_replicas_of_a_task_itself_are_refused_where_it_ends() {
    assert!(matches!(
        err_of("[workspace: live, replicas: 2]\na:\n  x\nwhat is this\n"),
        ExfileError::LiveReplicas { .. }
    ));
    assert!(matches!(
        err_of("a:\n  x\n[workspace: live, replicas: 2]\na:\n  y\n"),
        ExfileError::LiveReplicas { .. }
    ));
    assert!(matches!(
        err_of("replicas := 2\n[workspace: live]\na:\n  x\nwhat is this\n"),
        ExfileError::Unrecognized { line: 5, .. }
    ));
}
