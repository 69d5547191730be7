use exzet::cell::{
    container_name, cpu_max, docker_args, exit_code, interp, invoke, limits_off, rank_env,
    script_ext, script_name, Job, RunAction, RunEvent, RunState,
};
use exzet::exfile::Task;

fn task(script: &str) -> Task {
    let mut t = Task::default();
    t.name = "build".to_string();
    t.script = script.to_string();
    t.replicas = 1;
    t
}

fn strings(v: &[&str]) -> Vec<String> {
    v.iter().map(|s| s.to_string()).collect()
}

#[test]
fn limits_need_root_and_controllers() {
    assert!(!limits_off(true, true));
    assert!(limits_off(false, true));
    assert!(limits_off(true, false));
}

#[test]
fn interpreter_of_a_hashbang_line() {
    assert_eq!(interp("#!/usr/bin/env python3 -u"), strings(&["python3", "-u"]));
    assert_eq!(interp("#!/bin/bash -e"), strings(&["bash", "-e"]));
    assert_eq!(interp("#!/usr/bin/env"), strings(&["sh"]));
    assert_eq!(interp("#!"), strings(&["sh"]));
    assert_eq!(interp("#!#!/bin/zsh"), strings(&["zsh"]));
}

#[test]
fn script_files_by_kind_of_task() {
    assert_eq!(script_ext(&task("#!/bin/sh\necho"), false), Some(""));
    assert_eq!(script_ext(&task("echo hi"), false), None);
    assert_eq!(script_ext(&task("echo hi"), true), Some(".ps1"));
    let mut t = task("echo hi");
    t.shell = "bash -c".to_string();
    assert_eq!(script_ext(&t, true), None);
    assert_eq!(script_name("ab12", 3, ".ps1"), "exzet-ab12-3.ps1");
}

#[test]
fn command_lines() {
    let mut t = task("echo hi");
    t.args = strings(&["x", "y"]);
    assert_eq!(invoke(&t, false, ""), strings(&["/bin/sh", "-euc", "echo hi", "build", "x", "y"]));
    assert_eq!(
        invoke(&t, true, "C:\\t\\s.ps1"),
        strings(&["powershell", "-NoProfile", "-ExecutionPolicy", "Bypass", "-File", "C:\\t\\s.ps1", "x", "y"])
    );
    t.shell = "bash  -lc".to_string();
    assert_eq!(invoke(&t, false, ""), strings(&["bash", "-lc", "echo hi", "x", "y"]));
    let h = task("#!/usr/bin/env python3\nprint(1)");
    assert_eq!(invoke(&h, false, "/tmp/exzet-j-0"), strings(&["/tmp/exzet-j-0"]));
    assert_eq!(invoke(&h, true, "s"), strings(&["python3", "s"]));
    let mut d = h;
    d.image = Some("python:3".to_string());
    assert_eq!(invoke(&d, false, "f"), strings(&["/.exzet-cell"]));
}

#[test]
fn rank_environment_and_names() {
    let mut t = task("echo");
    t.replicas = 4;
    let j = Job { task: &t, id: "j1", dir: "/w", rank0: 0, ranks: 4, main: "10.0.0.2", pipe: true };
    let env = rank_env(&j, 2);
    assert_eq!(
        env,
        vec![
            ("EXZET_JOB".to_string(), "j1".to_string()),
            ("EXZET_RANK".to_string(), "2".to_string()),
            ("EXZET_WORLD".to_string(), "4".to_string()),
            ("EXZET_MAIN".to_string(), "10.0.0.2".to_string()),
        ]
    );
    assert_eq!(container_name("j1", 2), "exzet-j1-2");
    assert_eq!(cpu_max(2), "200000 100000");
}

#[test]
fn docker_run_arguments() {
    let mut t = task("#!/bin/sh\necho");
    t.image = Some("alpine:3".to_string());
    t.env = vec![("A".to_string(), "1".to_string())];
    t.cpus = Some(2);
    t.mem_bytes = Some(1024);
    t.gpus = 1;
    let j = Job { task: &t, id: "j", dir: "/w", rank0: 0, ranks: 1, main: "127.0.0.1", pipe: true };
    let argv = strings(&["/.exzet-cell", "arg"]);
    let args = docker_args(&j, 0, &argv, Some("/tmp/exzet-j-0"));
    assert_eq!(
        args,
        strings(&[
            "run", "--rm", "--network", "host", "--name", "exzet-j-0", "-v", "/w:/work", "-w", "/work",
            "--entrypoint", "/.exzet-cell", "-v", "/tmp/exzet-j-0:/.exzet-cell:ro", "-e", "A=1", "-e",
            "EXZET_JOB=j", "-e", "EXZET_RANK=0", "-e", "EXZET_WORLD=1", "-e", "EXZET_MAIN=127.0.0.1",
            "--cpus", "2", "--memory", "1024", "--gpus", "1", "alpine:3", "arg",
        ])
    );
}

#[test]
fn exit_codes_of_processes() {
    assert_eq!(exit_code(Some(3), None), 3);
    assert_eq!(exit_code(None, Some(15)), 143);
    assert_eq!(exit_code(None, None), 137);
}

fn run(ranks: u32, evs: &[RunEvent]) -> (i32, bool) {
    let mut s = RunState::new(ranks);
    for e in evs {
        s.step(*e);
    }
    assert!(!s.running());
    s.finish()
}

#[test]
fn exit_code_of_a_job_is_the_first_nonzero() {
    assert_eq!(run(3, &[RunEvent::Exited(0), RunEvent::Exited(0), RunEvent::Exited(0)]), (0, false));
    assert_eq!(run(3, &[RunEvent::Exited(0), RunEvent::Exited(2), RunEvent::Exited(5)]), (2, false));
}

#[test]
fn timeout_gives_124_and_interrupt_130() {
    let mut s = RunState::new(2);
    assert_eq!(s.step(RunEvent::Deadline), RunAction::KillAll);
    assert!(!s.can_kill());
    assert_eq!(s.step(RunEvent::Exited(137)), RunAction::Wait);
    assert_eq!(s.step(RunEvent::Exited(137)), RunAction::Wait);
    assert_eq!(s.finish(), (124, false));
    assert_eq!(run(1, &[RunEvent::Interrupt, RunEvent::Exited(137)]), (130, true));
}
