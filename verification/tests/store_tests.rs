use exzet::cas::{hash_bytes, splits_at_two, valid_hash, ContentHasher, Scan, Store};
use exzet::daemon::{
    admit_connection, refusal, Admission, Intake, IntakeAction, IntakeEvent, IntakePhase,
    parse_daemon_args, ArgError,
    check_host, check_job, limits_unenforced, listen_port, merge_outputs, nfs_options,
    opening_token, rank_range_ok, sends_outputs, server_entry, sort_jobs, unit_text,
    validate_manifest, JobError, ManifestError,
};
use exzet::exfile::Task;
use exzet::proto::{
    clean_rel, decode_frame, path_message, encode_frame, token_eq, FileEntry, FrameError, JobInfo, Msg, PathError,
    TAG_JSON, TAG_RAW,
};
use exzet::rand_hex;

const EMPTY_HASH: &str = "af1349b9f5f9a1a6a0404dea36dcc9499bcb25c9adc112b7cc9a93cae41f3262";
const ABC_HASH: &str = "6437b3ac38465133ffb63b75273a8db548c558465d79db03fd359c6cd5bd9d85";

fn file(path: &str, hash: &str) -> FileEntry {
    FileEntry { path: path.to_string(), mode: 0o644, hash: hash.to_string(), link: None }
}

fn link(path: &str, target: &str) -> FileEntry {
    FileEntry { path: path.to_string(), mode: 0o777, hash: String::new(), link: Some(target.to_string()) }
}

#[test]
fn content_hashes_are_blake3_in_hex() {
    assert_eq!(hash_bytes(b""), EMPTY_HASH);
    assert_eq!(hash_bytes(b"abc"), ABC_HASH);
    let mut h = ContentHasher::new();
    h.update(b"a");
    h.update(b"");
    h.update(b"bc");
    assert_eq!(h.finish(), ABC_HASH);
    assert!(valid_hash(EMPTY_HASH));
    assert!(valid_hash(&EMPTY_HASH.to_uppercase()));
    assert!(!valid_hash(&EMPTY_HASH[1..]));
    assert!(!valid_hash(&EMPTY_HASH.replace('a', "g")));
}

#[test]
fn blobs_live_under_two_character_directories() {
    let s = Store::new("/state/cas".to_string());
    assert_eq!(s.blob_path(ABC_HASH), format!("/state/cas/64/{}", &ABC_HASH[2..]));
    let s = Store::new("/state/cas/".to_string());
    assert_eq!(s.blob_path("abcd"), "/state/cas/ab/cd");
    assert!(splits_at_two("ab"));
    assert!(splits_at_two("é"));
    assert!(!splits_at_two("a"));
    assert!(!splits_at_two("aé"));
}

#[test]
fn only_missing_blobs_are_asked_for_once_each_in_order() {
    let s = Store::new("/cas".to_string());
    let files = vec![
        file("b", ABC_HASH),
        file("a", EMPTY_HASH),
        link("l", "a"),
        file("c", ABC_HASH),
        file("d", &"0".repeat(64)),
    ];
    let present = vec![false, false, false, false, true];
    assert_eq!(s.missing(&files, &present), vec![ABC_HASH.to_string(), EMPTY_HASH.to_string()]);
    assert_eq!(s.missing(&files, &[true, true, false, true, true]), Vec::<String>::new());
}

#[test]
fn scan_records_files_and_their_sources() {
    let mut sc = Scan::new();
    sc.add_file("a".to_string(), 0o644, ABC_HASH.to_string(), "/w/a".to_string());
    sc.add_link("l".to_string(), "a".to_string());
    sc.add_file("b".to_string(), 0o755, ABC_HASH.to_string(), "/w/b".to_string());
    assert_eq!(sc.files.len(), 3);
    assert_eq!(sc.files[1].mode, 0o777);
    assert_eq!(sc.files[1].link.as_deref(), Some("a"));
    assert_eq!(sc.source(ABC_HASH), Some("/w/b".to_string()));
    assert_eq!(sc.source(EMPTY_HASH), None);
}

#[test]
fn frames_round_trip() {
    let f = encode_frame(TAG_RAW, b"hello");
    assert_eq!(f, vec![0, 0, 0, 6, b'R', b'h', b'e', b'l', b'l', b'o']);
    let (tag, body, used) = decode_frame(&f).unwrap();
    assert_eq!((tag, body.as_slice(), used), (TAG_RAW, &b"hello"[..], 10));
    assert_eq!(decode_frame(&[0, 0, 0, 0, b'J']), Err(FrameError::BadLength { len: 0 }));
    assert_eq!(decode_frame(&[0, 0, 0, 2, b'X', 1]), Err(FrameError::BadTag { tag: b'X' }));
    assert_eq!(decode_frame(&[0, 0, 0, 3, TAG_JSON, 1]), Err(FrameError::Closed));
}

#[test]
fn relative_paths_are_cleaned() {
    assert_eq!(clean_rel("./a//b/./c").unwrap(), "a/b/c");
    assert_eq!(clean_rel("/etc/passwd"), Err(PathError::Unsafe));
    assert_eq!(clean_rel("a/../b"), Err(PathError::Unsafe));
    assert_eq!(clean_rel("./."), Err(PathError::Empty));
    for p in ["a//b/", "./x/./y", "dir/file.txt", "z"] {
        let once = clean_rel(p).unwrap();
        assert!(!once.starts_with('/') && !once.split('/').any(|c| c.is_empty() || c == "." || c == ".."));
        assert_eq!(clean_rel(&once).unwrap(), once);
    }
    assert_eq!(exzet::cas::hydrated_mode(0o444), 0o644);
}

#[test]
fn tokens_compare_by_hash() {
    assert!(token_eq("s3cret", "s3cret"));
    assert!(!token_eq("s3cret", "s3cre"));
}

#[test]
fn random_ids_are_hex() {
    let id = rand_hex(6).unwrap();
    assert_eq!(id.len(), 12);
    assert!(id.chars().all(|c| c.is_ascii_hexdigit() && !c.is_ascii_uppercase()));
    assert_ne!(rand_hex(16).unwrap(), rand_hex(16).unwrap());
}

#[test]
fn no_random_bytes_give_the_empty_id() {
    assert_eq!(rand_hex(0), Some(String::new()));
}

#[test]
fn jobs_the_daemon_takes() {
    let mut t = Task::default();
    t.replicas = 4;
    assert!(rank_range_ok(0, 4, 4));
    assert!(rank_range_ok(3, 1, 4));
    assert!(!rank_range_ok(3, 2, 4));
    assert!(!rank_range_ok(0, 0, 4));
    assert!(!rank_range_ok(u32::MAX, 2, 4));
    assert_eq!(check_job(&t, 0, 4, false), Ok(()));
    assert_eq!(check_job(&t, 2, 3, false), Err(JobError::BadRankRange));
    t.live = true;
    assert_eq!(check_job(&t, 0, 1, false), Err(JobError::LiveReplicas));
    t.replicas = 1;
    assert_eq!(check_job(&t, 0, 1, true), Err(JobError::LiveDetach));
    assert_eq!(check_host(&t, true, false), Err(JobError::LiveNeedsRoot));
    t.image = Some("alpine".to_string());
    assert_eq!(check_host(&t, false, true), Err(JobError::NoContainers));
    assert_eq!(JobError::BadRankRange.message(), "bad rank range");
    let mut u = Task::default();
    u.cpus = Some(1);
    assert!(limits_unenforced(&u, true));
    assert!(!limits_unenforced(&u, false));
}

#[test]
fn manifests_the_daemon_accepts() {
    assert_eq!(validate_manifest(&[file("a", ABC_HASH), link("l", "x")]), Ok(()));
    assert_eq!(
        validate_manifest(&[file("a", "nothex"), file("/b", ABC_HASH)]),
        Err(ManifestError::BadHash)
    );
    assert_eq!(
        validate_manifest(&[file("../b", ABC_HASH), file("a", "nothex")]),
        Err(ManifestError::BadPath { reason: PathError::Unsafe })
    );
}

#[test]
fn outputs_sent_back() {
    assert!(sends_outputs(0, false, false, 1));
    assert!(!sends_outputs(1, false, false, 1));
    assert!(!sends_outputs(0, true, false, 1));
    assert!(!sends_outputs(0, false, true, 1));
    assert!(!sends_outputs(0, false, false, 0));
    let found = vec![
        vec!["dist/b".to_string(), "dist/a".to_string()],
        vec![],
        vec!["dist/a".to_string()],
    ];
    let specs = vec!["dist".to_string(), "missing".to_string(), "dist/a".to_string()];
    let (outs, unmatched) = merge_outputs(&found, &specs);
    assert_eq!(outs, vec!["dist/a".to_string(), "dist/b".to_string()]);
    assert_eq!(unmatched, vec!["missing".to_string()]);
}

#[test]
fn jobs_listed_by_id() {
    let jobs = vec![
        JobInfo { job: "c".to_string(), name: "x".to_string(), code: None },
        JobInfo { job: "a".to_string(), name: "y".to_string(), code: Some(0) },
        JobInfo { job: "b".to_string(), name: "z".to_string(), code: Some(1) },
    ];
    let ids: Vec<String> = sort_jobs(jobs).into_iter().map(|j| j.job).collect();
    assert_eq!(ids, vec!["a".to_string(), "b".to_string(), "c".to_string()]);
}

#[test]
fn first_messages_carry_tokens() {
    let m = Msg::Ps { token: "t".to_string() };
    assert_eq!(opening_token(&m).map(|s| s.as_str()), Some("t"));
    assert!(opening_token(&Msg::Ready).is_none());
}

#[test]
fn texts_of_the_daemon() {
    assert_eq!(
        nfs_options(4000),
        "vers=3,proto=tcp,addr=127.0.0.1,port=4000,mountvers=3,mountproto=tcp,mountport=4000,nolock,soft,timeo=100,retrans=3,actimeo=1"
    );
    assert_eq!(listen_port("0.0.0.0:7433"), "7433");
    assert_eq!(listen_port("noport"), "noport");
    assert_eq!(server_entry("tok", "h", "7433"), "server entry: tok@h:7433");
    let u = unit_text("/bin/exzed", "0.0.0.0:7433", "/var/lib/exzet", true, true);
    assert_eq!(
        u,
        "[Unit]\nDescription=exzet daemon\nAfter=network.target\n\n[Service]\nExecStart=\"/bin/exzed\" --listen 0.0.0.0:7433 --state \"/var/lib/exzet\" --containers true\nRestart=always\n\n[Install]\nWantedBy=multi-user.target\n"
    );
}

#[test]
fn command_line_of_the_daemon() {
    let s = |v: &[&str]| v.iter().map(|x| x.to_string()).collect::<Vec<String>>();
    let d = parse_daemon_args(&s(&[]), "/st").unwrap();
    assert_eq!((d.listen.as_str(), d.state.as_str(), d.containers), ("0.0.0.0:7433", "/st", true));
    assert!(d.token.is_none() && d.service.is_none());
    let d = parse_daemon_args(&s(&["--listen", "h:1", "--token", "t", "--containers", "false", "--service"]), "/st").unwrap();
    assert_eq!((d.listen.as_str(), d.token.as_deref(), d.containers, d.service), ("h:1", Some("t"), false, Some(true)));
    let e = parse_daemon_args(&s(&["--containers", "yes"]), "/st").err().unwrap();
    assert_eq!(e, ArgError::ContainersNeedsBool);
    assert_eq!(e.message(), "--containers needs true or false");
    let e = parse_daemon_args(&s(&["--state"]), "/st").err().unwrap();
    assert_eq!(e.message(), "--state needs a path");
    let e = parse_daemon_args(&s(&["-x"]), "/st").err().unwrap();
    assert_eq!(e.message(), "unknown flag '-x' (flags: --listen --state --token --containers --service --disable)");
}

#[test]
fn state_directory_of_the_daemon() {
    assert_eq!(exzet::daemon::state_dir(true, Some("/s"), Some("/h")), "/var/lib/exzet");
    assert_eq!(exzet::daemon::state_dir(false, Some("/s"), Some("/h")), "/s/exzet");
    assert_eq!(exzet::daemon::state_dir(false, None, Some("/h")), "/h/.local/state/exzet");
    assert_eq!(exzet::daemon::state_dir(false, None, None), "/tmp/exzet");
}

#[test]
fn content_hashes_are_64_hex_digits() {
    for data in [&b""[..], &b"abc"[..], &[0u8; 5000][..]] {
        let h = hash_bytes(data);
        assert_eq!(h.len(), 64);
        assert!(valid_hash(&h));
    }
    let mut c = ContentHasher::new();
    c.update(b"a");
    c.update(b"bc");
    let h = c.finish();
    assert_eq!(h, ABC_HASH);
    assert!(valid_hash(&h));
}

#[test]
fn different_hashes_have_different_blob_paths() {
    let s = Store::new("/cas".to_string());
    assert_ne!(s.blob_path(EMPTY_HASH), s.blob_path(ABC_HASH));
}

#[test]
fn received_blob_goes_where_its_hash_says() {
    let s = Store::new("/cas".to_string());
    assert_eq!(s.blob_destination(ABC_HASH, ABC_HASH), Some(s.blob_path(ABC_HASH)));
    assert_eq!(s.blob_destination(ABC_HASH, EMPTY_HASH), None);
    assert_eq!(s.blob_destination("a", "a"), None);
}

#[test]
fn path_and_frame_messages() {
    let path = "a/../../etc";
    let e = clean_rel(path).err().unwrap();
    assert_eq!(path_message(&e, path), "unsafe path 'a/../../etc'");
    assert_eq!(path_message(&PathError::Empty, "."), "empty path");
    assert_eq!(FrameError::BadTag { tag: b'X' }.message(), "bad frame tag 88");
    assert_eq!(FrameError::BadLength { len: 0 }.message(), "bad frame length 0");
    assert_eq!(FrameError::Closed.message(), "connection closed");
    assert_eq!(FrameError::NotControl.message(), "expected a control message");
    assert_eq!(FrameError::NotData.message(), "expected a data frame");
    assert_eq!(FrameError::Overrun.message(), "data overrun");
}

#[test]
fn first_message_admission() {
    let ps = Msg::Ps { token: "s3cret".to_string() };
    assert_eq!(admit_connection(&ps, "s3cret"), Admission::Accept);
    assert_eq!(admit_connection(&ps, "other"), Admission::Refuse);
    assert_eq!(admit_connection(&Msg::Ready, "s3cret"), Admission::Unexpected);
    let join = Msg::TunnelJoin { token: "s3cret".to_string(), tunnel: "t".to_string() };
    assert_eq!(admit_connection(&join, "s3cret"), Admission::Accept);
    match refusal() {
        Msg::Error { msg } => assert_eq!(msg, "bad token"),
        _ => panic!("expected an error"),
    }
}

fn fail_text(a: IntakeAction) -> String {
    match a {
        IntakeAction::Fail { msg } => msg,
        _ => panic!("expected a refusal"),
    }
}

#[test]
fn intake_takes_the_missing_blobs_then_the_workspace() {
    let mut i = Intake::new();
    let files = vec![file("a", ABC_HASH), file("b", EMPTY_HASH), file("c", ABC_HASH)];
    assert!(matches!(i.step(IntakeEvent::Message(Msg::Manifest { files })), IntakeAction::LookUp));
    assert_eq!(i.phase, IntakePhase::AwaitPresence);
    match i.step(IntakeEvent::Present(vec![false, true, false])) {
        IntakeAction::SendNeed { hashes } => assert_eq!(hashes, vec![ABC_HASH.to_string()]),
        _ => panic!("expected the list of missing blobs"),
    }
    assert!(matches!(i.step(IntakeEvent::Sent), IntakeAction::Await));
    match i.step(IntakeEvent::Message(Msg::Blob { hash: ABC_HASH.to_string(), len: 3 })) {
        IntakeAction::Receive { hash, len } => {
            assert_eq!(hash, ABC_HASH);
            assert_eq!(len, 3);
        }
        _ => panic!("expected to receive the blob"),
    }
    assert!(matches!(i.step(IntakeEvent::Stored), IntakeAction::Hydrate));
    assert_eq!(i.phase, IntakePhase::Finished);
    assert_eq!(i.files.len(), 3);
}

#[test]
fn intake_with_nothing_missing_goes_straight_to_the_workspace() {
    let mut i = Intake::new();
    let files = vec![file("a", ABC_HASH)];
    assert!(matches!(i.step(IntakeEvent::Message(Msg::Manifest { files })), IntakeAction::LookUp));
    match i.step(IntakeEvent::Present(vec![true])) {
        IntakeAction::SendNeed { hashes } => assert!(hashes.is_empty()),
        _ => panic!("expected the list of missing blobs"),
    }
    assert!(matches!(i.step(IntakeEvent::Sent), IntakeAction::Hydrate));
}

#[test]
fn intake_refusals() {
    let mut i = Intake::new();
    assert_eq!(fail_text(i.step(IntakeEvent::Message(Msg::Ready))), "expected a manifest");
    let mut i = Intake::new();
    let files = vec![file("ok", ABC_HASH), file("../up", ABC_HASH)];
    assert_eq!(fail_text(i.step(IntakeEvent::Message(Msg::Manifest { files }))), "unsafe path '../up'");
    let mut i = Intake::new();
    let files = vec![file("a", "nothex")];
    assert_eq!(fail_text(i.step(IntakeEvent::Message(Msg::Manifest { files }))), "bad hash in manifest");
    let mut i = Intake::new();
    let files = vec![file("a", ABC_HASH)];
    i.step(IntakeEvent::Message(Msg::Manifest { files }));
    i.step(IntakeEvent::Present(vec![false]));
    i.step(IntakeEvent::Sent);
    assert!(!i.fits(&IntakeEvent::Stored));
    assert_eq!(fail_text(i.step(IntakeEvent::Message(Msg::Blob { hash: "zz".to_string(), len: 1 }))), "bad blob hash");
    let mut i = Intake::new();
    let files = vec![file("a", ABC_HASH)];
    i.step(IntakeEvent::Message(Msg::Manifest { files }));
    i.step(IntakeEvent::Present(vec![false]));
    i.step(IntakeEvent::Sent);
    assert_eq!(fail_text(i.step(IntakeEvent::Message(Msg::Ready))), "expected a blob");
    assert_eq!(i.phase, IntakePhase::Failed);
}
