//! The decisions of exzed, the daemon: which first message a connection may
//! start with, which jobs it takes, which manifests it accepts, which
//! outputs it sends back, how it lists jobs, and the texts it writes.
use vstd::prelude::*;
use crate::cas::{join_path, missing_hashes, missing_set, path_join, valid_hash, valid_hash_spec};
use crate::exfile::{Task, TaskView};
use crate::proto::{
    clean_rel, clean_rel_spec, path_message, path_message_spec, token_eq, FileEntry, JobInfo, Msg,
    PathError,
};
use crate::client::split_last;
use crate::text::{
    copy_range, lemma_rfind_char_before, rfind_char_before, string_of_str, chars_of, lemma_lex_irrefl, lemma_lex_total, lemma_lex_trans, lex_less, lex_lt, push_dec,
    push_str, sort_unique, string_of, strictly_sorted, dec,
};

verus! {

/// The token of a connection's first message, for the messages that may
/// open a connection.
pub fn opening_token(m: &Msg) -> (r: Option<&String>)
    ensures
        match m {
            Msg::Hello { token, .. } => r == Some(token),
            Msg::TunnelJoin { token, .. } => r == Some(token),
            Msg::Ps { token } => r == Some(token),
            Msg::Attach { token, .. } => r == Some(token),
            _ => r is None,
        },
{
    match m {
        Msg::Hello { token, .. } => Some(token),
        Msg::TunnelJoin { token, .. } => Some(token),
        Msg::Ps { token } => Some(token),
        Msg::Attach { token, .. } => Some(token),
        _ => None,
    }
}

/// The token a message that may open a connection carries, or nothing for
/// any other message.
pub open spec fn opening_token_spec(m: Msg) -> Option<Seq<char>> {
    match m {
        Msg::Hello { token, .. } => Some(token@),
        Msg::TunnelJoin { token, .. } => Some(token@),
        Msg::Ps { token } => Some(token@),
        Msg::Attach { token, .. } => Some(token@),
        _ => None,
    }
}

/// Whether two tokens are taken as the same: their UTF-8 bytes have the same
/// BLAKE3 digest, as `token_eq` compares them.
pub open spec fn tokens_match(a: Seq<char>, b: Seq<char>) -> bool {
    crate::cas::blake3_digest(vstd::utf8::encode_utf8(a)) == crate::cas::blake3_digest(
        vstd::utf8::encode_utf8(b),
    )
}

/// What the daemon does with the first message of a connection.
#[derive(Debug, PartialEq, Eq, Structural)]
pub enum Admission {
    /// Not a message that opens a connection: the connection is dropped.
    Unexpected,
    /// The token is wrong: the client is answered `refusal()` and nothing
    /// else is done for it.
    Refuse,
    /// The token is right: the request is served.
    Accept,
}

/// How the daemon whose token is `token` takes the first message `m` of a
/// connection.
pub open spec fn admission(m: Msg, token: Seq<char>) -> Admission {
    match opening_token_spec(m) {
        None => Admission::Unexpected,
        Some(t) => if tokens_match(t, token) {
            Admission::Accept
        } else {
            Admission::Refuse
        },
    }
}

/// Takes the first message of a connection, as `admission` says.
pub fn admit_connection(m: &Msg, token: &str) -> (r: Admission)
    ensures
        r == admission(*m, token@),
{
    match opening_token(m) {
        None => Admission::Unexpected,
        Some(t) => {
            if token_eq(t.as_str(), token) {
                Admission::Accept
            } else {
                Admission::Refuse
            }
        },
    }
}

/// The answer to a connection whose token is wrong.
pub fn refusal() -> (r: Msg)
    ensures
        r matches Msg::Error { msg } && msg@ == "bad token"@,
{
    Msg::Error { msg: string_of_str("bad token") }
}

/// Whether ranks `rank0 .. rank0 + ranks` are a nonempty part of a task of
/// `replicas` ranks.
pub open spec fn rank_range_ok_spec(rank0: u32, ranks: u32, replicas: u32) -> bool {
    ranks > 0 && rank0 + ranks <= replicas
}

pub fn rank_range_ok(rank0: u32, ranks: u32, replicas: u32) -> (r: bool)
    ensures
        r == rank_range_ok_spec(rank0, ranks, replicas),
{
    match rank0.checked_add(ranks) {
        Some(e) => ranks > 0 && e <= replicas,
        None => false,
    }
}

/// Whether a job asks for cpu or memory limits that this server cannot
/// enforce: limits without an image, where limits are off.
pub fn limits_unenforced(t: &Task, limits_off: bool) -> (r: bool)
    ensures
        r == ((t.cpus is Some || t.mem_bytes is Some) && t.image is None && limits_off),
{
    (t.cpus.is_some() || t.mem_bytes.is_some()) && t.image.is_none() && limits_off
}

/// Why exzed refuses a job.
#[derive(Debug, PartialEq, Eq, Structural)]
pub enum JobError {
    BadRankRange,
    LiveReplicas,
    LiveDetach,
    NoContainers,
    LiveNeedsRoot,
}

impl JobError {
    pub fn message(&self) -> (r: &'static str)
        ensures
            r@ == match self {
                JobError::BadRankRange => "bad rank range"@,
                JobError::LiveReplicas => "live workspace requires replicas = 1"@,
                JobError::LiveDetach => "detach requires the sync workspace"@,
                JobError::NoContainers => "containers: false on this server"@,
                JobError::LiveNeedsRoot => "live workspace requires exzed running as root"@,
            },
    {
        match self {
            JobError::BadRankRange => "bad rank range",
            JobError::LiveReplicas => "live workspace requires replicas = 1",
            JobError::LiveDetach => "detach requires the sync workspace",
            JobError::NoContainers => "containers: false on this server",
            JobError::LiveNeedsRoot => "live workspace requires exzed running as root",
        }
    }
}

/// The checks of a job that need nothing of the machine, in order: its
/// ranks, then its workspace.
pub open spec fn job_check_spec(t: TaskView, rank0: u32, ranks: u32, detach: bool) -> Result<(), JobError> {
    if !rank_range_ok_spec(rank0, ranks, t.replicas) {
        Err(JobError::BadRankRange)
    } else if t.live && t.replicas > 1 {
        Err(JobError::LiveReplicas)
    } else if t.live && detach {
        Err(JobError::LiveDetach)
    } else {
        Ok(())
    }
}

pub fn check_job(t: &Task, rank0: u32, ranks: u32, detach: bool) -> (r: Result<(), JobError>)
    ensures
        r == job_check_spec(t@, rank0, ranks, detach),
{
    if !rank_range_ok(rank0, ranks, t.replicas) {
        Err(JobError::BadRankRange)
    } else if t.live && t.replicas > 1 {
        Err(JobError::LiveReplicas)
    } else if t.live && detach {
        Err(JobError::LiveDetach)
    } else {
        Ok(())
    }
}

/// The checks of a job that depend on how this server runs: a job with an
/// image needs containers, and a live workspace needs root.
pub fn check_host(t: &Task, containers: bool, root: bool) -> (r: Result<(), JobError>)
    ensures
        r == if t.image is Some && !containers {
            Err(JobError::NoContainers)
        } else if t.live && !root {
            Err(JobError::LiveNeedsRoot)
        } else {
            Ok::<(), JobError>(())
        },
{
    if t.image.is_some() && !containers {
        Err(JobError::NoContainers)
    } else if t.live && !root {
        Err(JobError::LiveNeedsRoot)
    } else {
        Ok(())
    }
}

/// Why a manifest is refused.
#[derive(Debug, PartialEq, Eq, Structural)]
pub enum ManifestError {
    /// A path that is not a safe relative path.
    BadPath { reason: PathError },
    /// A regular file whose hash is not 64 hexadecimal digits.
    BadHash,
}

/// Whether an entry of a manifest is acceptable, and if not, why.
pub open spec fn entry_check(f: FileEntry) -> Result<(), ManifestError> {
    match clean_rel_spec(f.path@) {
        Err(e) => Err(ManifestError::BadPath { reason: e }),
        Ok(_) => if f.link is None && !valid_hash_spec(f.hash@) {
            Err(ManifestError::BadHash)
        } else {
            Ok(())
        },
    }
}

/// The first refusal among the entries, or none.
pub open spec fn manifest_check(files: Seq<FileEntry>) -> Result<(), ManifestError>
    decreases files.len(),
{
    if files.len() == 0 {
        Ok(())
    } else {
        match entry_check(files[0]) {
            Err(e) => Err(e),
            Ok(_) => manifest_check(files.drop_first()),
        }
    }
}

/// Checks a manifest: every path safe, every regular file's hash well
/// formed; the first entry that fails decides the error.
pub fn validate_manifest(files: &[FileEntry]) -> (r: Result<(), ManifestError>)
    ensures
        r == manifest_check(files@),
{
    let mut i: usize = 0;
    assert(files@.subrange(0, files@.len() as int) =~= files@);
    while i < files.len()
        invariant
            i <= files@.len(),
            manifest_check(files@) == manifest_check(files@.subrange(i as int, files@.len() as int)),
        decreases files@.len() - i,
    {
        let f = &files[i];
        let ghost rest = files@.subrange(i as int, files@.len() as int);
        assert(rest[0] == *f);
        assert(rest.drop_first() =~= files@.subrange(i + 1, files@.len() as int));
        match clean_rel(f.path.as_str()) {
            Err(e) => {
                return Err(ManifestError::BadPath { reason: e });
            },
            Ok(_) => {},
        }
        if f.link.is_none() && !valid_hash(f.hash.as_str()) {
            return Err(ManifestError::BadHash);
        }
        i += 1;
    }
    Ok(())
}

/// Why a manifest is refused, as the text sent to the client: the first
/// entry that fails decides, a bad path before a bad hash.
pub open spec fn manifest_refusal(files: Seq<FileEntry>) -> Option<Seq<char>>
    decreases files.len(),
{
    if files.len() == 0 {
        None
    } else {
        match clean_rel_spec(files[0].path@) {
            Err(e) => Some(path_message_spec(e, files[0].path@)),
            Ok(_) => if files[0].link is None && !valid_hash_spec(files[0].hash@) {
                Some("bad hash in manifest"@)
            } else {
                manifest_refusal(files.drop_first())
            },
        }
    }
}

/// Where the daemon stands in taking a synced workspace from a client.
#[derive(Clone, Copy, Debug, PartialEq, Eq, Structural)]
pub enum IntakePhase {
    /// Waiting for the manifest.
    AwaitManifest,
    /// Waiting to learn which blobs of the manifest the store has.
    AwaitPresence,
    /// Waiting for the list of missing blobs to go out.
    NeedSent,
    /// Waiting for the next blob's header.
    AwaitBlob,
    /// Waiting for the announced blob to be received and stored.
    Receiving,
    /// Every needed blob is stored.
    Finished,
    /// The job was refused.
    Failed,
}

/// What happened since the last step.
pub enum IntakeEvent {
    /// A message from the client.
    Message(Msg),
    /// For each entry of the manifest, whether the store has its blob.
    Present(Vec<bool>),
    /// The list of missing blobs went out.
    Sent,
    /// The announced blob was received and stored.
    Stored,
}

/// What the daemon does next.
pub enum IntakeAction {
    /// Refuse the job with this text.
    Fail { msg: String },
    /// Look up which blobs of the manifest (`files`) the store has.
    LookUp,
    /// Send `Need` with these hashes.
    SendNeed { hashes: Vec<String> },
    /// Read the next message.
    Await,
    /// Receive `len` bytes of the blob `hash` and store it.
    Receive { hash: String, len: u64 },
    /// All needed blobs are stored: build the workspace from `files`.
    Hydrate,
}

/// Whether `ev` is an event that can happen in `phase`, with a manifest of
/// `n` entries.
pub open spec fn intake_fits(phase: IntakePhase, n: nat, ev: IntakeEvent) -> bool {
    match ev {
        IntakeEvent::Message(_) => phase == IntakePhase::AwaitManifest || phase
            == IntakePhase::AwaitBlob,
        IntakeEvent::Present(p) => phase == IntakePhase::AwaitPresence && p@.len() == n,
        IntakeEvent::Sent => phase == IntakePhase::NeedSent,
        IntakeEvent::Stored => phase == IntakePhase::Receiving,
    }
}

/// The daemon's side of taking a synced workspace: the manifest, checked;
/// the list of the blobs the store lacks; then exactly that many blobs, each
/// announced under a well-formed hash and stored; then the workspace.
pub struct Intake {
    pub phase: IntakePhase,
    /// The manifest, once it came.
    pub files: Vec<FileEntry>,
    /// How many blobs are still to come.
    pub left: usize,
}

impl Intake {
    pub fn new() -> (r: Intake)
        ensures
            r.phase == IntakePhase::AwaitManifest,
            r.files@ == Seq::<FileEntry>::empty(),
            r.left == 0,
    {
        Intake { phase: IntakePhase::AwaitManifest, files: Vec::new(), left: 0 }
    }

    /// Whether `ev` can happen now, as `intake_fits` says.
    pub fn fits(&self, ev: &IntakeEvent) -> (r: bool)
        ensures
            r == intake_fits(self.phase, self.files@.len(), *ev),
    {
        match ev {
            IntakeEvent::Message(_) => self.phase == IntakePhase::AwaitManifest || self.phase
                == IntakePhase::AwaitBlob,
            IntakeEvent::Present(p) => self.phase == IntakePhase::AwaitPresence && p.len()
                == self.files.len(),
            IntakeEvent::Sent => self.phase == IntakePhase::NeedSent,
            IntakeEvent::Stored => self.phase == IntakePhase::Receiving,
        }
    }

    fn refuse(&mut self, msg: String) -> (a: IntakeAction)
        ensures
            final(self).phase == IntakePhase::Failed,
            final(self).files@ == old(self).files@,
            final(self).left == old(self).left,
            a matches IntakeAction::Fail { msg: m } && m@ == msg@,
    {
        self.phase = IntakePhase::Failed;
        IntakeAction::Fail { msg }
    }

    /// The next step after `ev`.
    pub fn step(&mut self, ev: IntakeEvent) -> (a: IntakeAction)
        requires
            intake_fits(old(self).phase, old(self).files@.len(), ev),
        ensures
            match ev {
                IntakeEvent::Message(Msg::Manifest { files }) if old(self).phase
                    == IntakePhase::AwaitManifest => match manifest_refusal(files@) {
                    Some(t) => a matches IntakeAction::Fail { msg } && msg@ == t
                        && final(self).phase == IntakePhase::Failed,
                    None => a is LookUp && final(self).phase == IntakePhase::AwaitPresence
                        && final(self).files@ == files@,
                },
                IntakeEvent::Message(_) if old(self).phase == IntakePhase::AwaitManifest => a matches IntakeAction::Fail {
                    msg,
                } && msg@ == "expected a manifest"@ && final(self).phase == IntakePhase::Failed,
                IntakeEvent::Message(Msg::Blob { hash, len }) => if valid_hash_spec(hash@) {
                    a matches IntakeAction::Receive { hash: h, len: l } && h@ == hash@ && l == len
                        && final(self).phase == IntakePhase::Receiving && final(self).left
                        == old(self).left && final(self).files@ == old(self).files@
                } else {
                    a matches IntakeAction::Fail { msg } && msg@ == "bad blob hash"@
                        && final(self).phase == IntakePhase::Failed
                },
                IntakeEvent::Message(_) => a matches IntakeAction::Fail { msg } && msg@
                    == "expected a blob"@ && final(self).phase == IntakePhase::Failed,
                IntakeEvent::Present(p) => a matches IntakeAction::SendNeed { hashes }
                    && strictly_sorted(hashes.deep_view()) && hashes.deep_view().to_set()
                    == missing_set(old(self).files@, p@) && final(self).phase
                    == IntakePhase::NeedSent && final(self).left == hashes@.len()
                    && final(self).files@ == old(self).files@,
                IntakeEvent::Sent => final(self).files@ == old(self).files@ && final(self).left
                    == old(self).left && if old(self).left == 0 {
                    a is Hydrate && final(self).phase == IntakePhase::Finished
                } else {
                    a is Await && final(self).phase == IntakePhase::AwaitBlob
                },
                IntakeEvent::Stored => final(self).files@ == old(self).files@ && (if old(self).left
                    <= 1 {
                    a is Hydrate && final(self).phase == IntakePhase::Finished && final(self).left
                        == 0
                } else {
                    a is Await && final(self).phase == IntakePhase::AwaitBlob && final(self).left
                        == old(self).left - 1
                }),
            },
    {
        match ev {
            IntakeEvent::Message(m) => {
                if self.phase == IntakePhase::AwaitManifest {
                    match m {
                        Msg::Manifest { files } => {
                            match refusal_of(&files) {
                                Some(t) => self.refuse(t),
                                None => {
                                    self.files = files;
                                    self.phase = IntakePhase::AwaitPresence;
                                    IntakeAction::LookUp
                                },
                            }
                        },
                        _ => self.refuse(string_of_str("expected a manifest")),
                    }
                } else {
                    match m {
                        Msg::Blob { hash, len } => {
                            if valid_hash(hash.as_str()) {
                                self.phase = IntakePhase::Receiving;
                                IntakeAction::Receive { hash, len }
                            } else {
                                self.refuse(string_of_str("bad blob hash"))
                            }
                        },
                        _ => self.refuse(string_of_str("expected a blob")),
                    }
                }
            },
            IntakeEvent::Present(p) => {
                let hashes = missing_hashes(self.files.as_slice(), p.as_slice());
                self.left = hashes.len();
                self.phase = IntakePhase::NeedSent;
                IntakeAction::SendNeed { hashes }
            },
            IntakeEvent::Sent => {
                if self.left == 0 {
                    self.phase = IntakePhase::Finished;
                    IntakeAction::Hydrate
                } else {
                    self.phase = IntakePhase::AwaitBlob;
                    IntakeAction::Await
                }
            },
            IntakeEvent::Stored => {
                if self.left <= 1 {
                    self.left = 0;
                    self.phase = IntakePhase::Finished;
                    IntakeAction::Hydrate
                } else {
                    self.left = self.left - 1;
                    self.phase = IntakePhase::AwaitBlob;
                    IntakeAction::Await
                }
            },
        }
    }
}

/// Why a manifest is refused, as `manifest_refusal` says.
pub fn refusal_of(files: &Vec<FileEntry>) -> (r: Option<String>)
    ensures
        match r {
            Some(t) => manifest_refusal(files@) == Some(t@),
            None => manifest_refusal(files@) is None,
        },
{
    let mut i: usize = 0;
    assert(files@.subrange(0, files@.len() as int) =~= files@);
    while i < files.len()
        invariant
            i <= files@.len(),
            manifest_refusal(files@) == manifest_refusal(files@.subrange(i as int, files@.len() as int)),
        decreases files@.len() - i,
    {
        let f = &files[i];
        let ghost rest = files@.subrange(i as int, files@.len() as int);
        assert(rest[0] == *f);
        assert(rest.drop_first() =~= files@.subrange(i + 1, files@.len() as int));
        match clean_rel(f.path.as_str()) {
            Err(e) => {
                return Some(path_message(&e, f.path.as_str()));
            },
            Ok(_) => {},
        }
        if f.link.is_none() && !valid_hash(f.hash.as_str()) {
            return Some(string_of_str("bad hash in manifest"));
        }
        i += 1;
    }
    None
}

/// Whether a finished job sends its outputs back: only rank 0's server,
/// for a synced workspace, when the job was not interrupted and the task
/// names outputs.
pub fn sends_outputs(rank0: u32, live: bool, interrupted: bool, outputs: usize) -> (r: bool)
    ensures
        r == (rank0 == 0 && !live && !interrupted && outputs > 0),
{
    rank0 == 0 && !live && !interrupted && outputs > 0
}

/// The files found for all output specs, as one set.
pub open spec fn found_set(found: Seq<Seq<Seq<char>>>) -> Set<Seq<char>>
    decreases found.len(),
{
    if found.len() == 0 {
        Set::empty()
    } else {
        found_set(found.drop_last()).union(found.last().to_set())
    }
}

/// The output specs that matched nothing, in order.
pub open spec fn unmatched_specs(found: Seq<Seq<Seq<char>>>, specs: Seq<Seq<char>>) -> Seq<Seq<char>>
    decreases specs.len(),
{
    if specs.len() == 0 || found.len() == 0 {
        seq![]
    } else {
        unmatched_specs(found.drop_last(), specs.drop_last()) + if found.last().len() == 0 {
            seq![specs.last()]
        } else {
            seq![]
        }
    }
}

/// The outputs to send back, given for each output spec the files found
/// under it (relative to the workspace): all of them in order, each once;
/// and the specs that matched nothing.
pub fn merge_outputs(found: &Vec<Vec<String>>, specs: &[String]) -> (r: (Vec<String>, Vec<String>))
    requires
        found@.len() == specs@.len(),
    ensures
        strictly_sorted(r.0.deep_view()),
        r.0.deep_view().to_set() == found_set(found.deep_view()),
        r.1.deep_view() == unmatched_specs(found.deep_view(), specs.deep_view()),
{
    let mut all: Vec<Vec<char>> = Vec::new();
    let mut unmatched: Vec<String> = Vec::new();
    let mut i: usize = 0;
    while i < found.len()
        invariant
            i <= found@.len(),
            found@.len() == specs@.len(),
            all.deep_view().to_set() == found_set(found.deep_view().take(i as int)),
            unmatched.deep_view() == unmatched_specs(
                found.deep_view().take(i as int),
                specs.deep_view().take(i as int),
            ),
        decreases found@.len() - i,
    {
        let g = &found[i];
        assert(g.deep_view() == found.deep_view()[i as int]);
        let ghost a0 = all.deep_view();
        let mut j: usize = 0;
        while j < g.len()
            invariant
                j <= g@.len(),
                all.deep_view() == a0 + g.deep_view().take(j as int),
            decreases g@.len() - j,
        {
            let c = chars_of(g[j].as_str());
            assert(c.deep_view() =~= c@);
            let ghost before = all.deep_view();
            all.push(c);
            assert(all.deep_view() =~= before.push(g.deep_view()[j as int]));
            assert(g.deep_view().take(j + 1) =~= g.deep_view().take(j as int).push(g.deep_view()[j as int]));
            assert(all.deep_view() =~= a0 + g.deep_view().take(j + 1));
            j += 1;
        }
        assert(g.deep_view().take(g@.len() as int) =~= g.deep_view());
        let ghost u0 = unmatched.deep_view();
        if g.len() == 0 {
            unmatched.push(specs[i].clone());
            assert(unmatched.deep_view() =~= u0 + seq![specs.deep_view()[i as int]]);
        } else {
            assert(unmatched.deep_view() =~= u0 + seq![]);
        }
        proof {
            let fd = found.deep_view().take(i + 1);
            let sd = specs.deep_view().take(i + 1);
            assert(fd.drop_last() =~= found.deep_view().take(i as int));
            assert(sd.drop_last() =~= specs.deep_view().take(i as int));
            assert(fd.last() == g.deep_view());
            assert(sd.last() == specs.deep_view()[i as int]);
            vstd::seq_lib::lemma_seq_union_to_multiset_commutative(a0, g.deep_view());
            assert((a0 + g.deep_view()).to_set() =~= a0.to_set().union(g.deep_view().to_set())) by {
                assert forall|x: Seq<char>| (a0 + g.deep_view()).to_set().contains(x) <==> a0.to_set().union(
                    g.deep_view().to_set(),
                ).contains(x) by {
                    if (a0 + g.deep_view()).contains(x) {
                        let k = choose|k: int| 0 <= k < (a0 + g.deep_view()).len() && (a0 + g.deep_view())[k] == x;
                        if k < a0.len() {
                            assert(a0[k] == x);
                        } else {
                            assert(g.deep_view()[k - a0.len()] == x);
                        }
                    }
                    if a0.contains(x) {
                        let k = choose|k: int| 0 <= k < a0.len() && a0[k] == x;
                        assert((a0 + g.deep_view())[k] == x);
                    }
                    if g.deep_view().contains(x) {
                        let k = choose|k: int| 0 <= k < g.deep_view().len() && g.deep_view()[k] == x;
                        assert((a0 + g.deep_view())[a0.len() + k] == x);
                    }
                }
            }
        }
        i += 1;
    }
    assert(found.deep_view().take(found@.len() as int) =~= found.deep_view());
    assert(specs.deep_view().take(specs@.len() as int) =~= specs.deep_view());
    let sorted = sort_unique(&all);
    let mut r: Vec<String> = Vec::new();
    let mut k: usize = 0;
    while k < sorted.len()
        invariant
            k <= sorted@.len(),
            r.deep_view() == sorted.deep_view().take(k as int),
        decreases sorted@.len() - k,
    {
        let ghost before = r.deep_view();
        let x = string_of(sorted[k].as_slice());
        assert(sorted@[k as int].deep_view() =~= sorted@[k as int]@);
        r.push(x);
        assert(r.deep_view() =~= before.push(sorted.deep_view()[k as int]));
        assert(r.deep_view() =~= sorted.deep_view().take(k + 1));
        k += 1;
    }
    assert(sorted.deep_view().take(sorted@.len() as int) =~= sorted.deep_view());
    (r, unmatched)
}

/// Jobs in order of their ids (nondecreasing, in code point order).
pub open spec fn jobs_sorted(s: Seq<JobInfo>) -> bool {
    forall|i: int, j: int| 0 <= i < j < s.len() ==> !lex_lt(#[trigger] s[j].job@, #[trigger] s[i].job@)
}

/// The jobs in order of their ids; jobs with equal ids keep their order.
pub fn sort_jobs(jobs: Vec<JobInfo>) -> (r: Vec<JobInfo>)
    ensures
        jobs_sorted(r@),
        r@.to_multiset() == jobs@.to_multiset(),
{
    broadcast use vstd::seq_lib::to_multiset_insert, vstd::seq_lib::to_multiset_build;
    broadcast use vstd::multiset::group_multiset_axioms, vstd::seq_lib::group_to_multiset_ensures;
    let mut r: Vec<JobInfo> = Vec::new();
    let mut src = jobs;
    let ghost all = src@;
    assert(r@.to_multiset() =~= vstd::multiset::Multiset::<JobInfo>::empty());
    assert(r@.to_multiset().add(src@.to_multiset()) =~= all.to_multiset());
    while src.len() > 0
        invariant
            jobs_sorted(r@),
            r@.to_multiset().add(src@.to_multiset()) == all.to_multiset(),
        decreases src@.len(),
    {
        let ghost s0 = src@;
        let j = src.pop().unwrap();
        let ghost sv = src@;
        assert(s0 =~= sv.push(j));
        let key = chars_of(j.job.as_str());
        let mut p: usize = 0;
        while p < r.len() && !lex_less(key.as_slice(), chars_of(r[p].job.as_str()).as_slice())
            invariant
                p <= r@.len(),
                key@ == j.job@,
                forall|k: int| 0 <= k < p ==> !lex_lt(j.job@, #[trigger] r@[k].job@),
            decreases r@.len() - p,
        {
            p += 1;
        }
        proof {
            assert forall|k: int| p <= k < r@.len() implies !lex_lt(#[trigger] r@[k].job@, j.job@) by {
                lemma_lex_total(j.job@, r@[p as int].job@);
                if lex_lt(r@[k].job@, j.job@) {
                    if k == p {
                        lemma_lex_total(r@[k].job@, j.job@);
                    } else {
                        lemma_lex_trans(r@[k].job@, j.job@, r@[p as int].job@);
                        assert(!lex_lt(r@[k].job@, r@[p as int].job@));
                    }
                }
            }
        }
        let ghost r0 = r@;
        r.insert(p, j);
        proof {
            assert forall|a: int, b: int| 0 <= a < b < r@.len() implies !lex_lt(#[trigger] r@[b].job@, #[trigger] r@[a].job@) by {
                if a < p && b < p {
                    assert(r@[a] == r0[a] && r@[b] == r0[b]);
                } else if a < p && b == p {
                    assert(r@[a] == r0[a]);
                    lemma_lex_total(r0[a].job@, j.job@);
                } else if a < p && b > p {
                    assert(r@[a] == r0[a] && r@[b] == r0[b - 1]);
                } else if a == p {
                    assert(r@[b] == r0[b - 1]);
                } else {
                    assert(r@[a] == r0[a - 1] && r@[b] == r0[b - 1]);
                }
            }
            assert(r@ == r0.insert(p as int, j));
            vstd::seq_lib::to_multiset_insert(r0, p as int, j);
            vstd::seq_lib::to_multiset_build(sv, j);
            assert(r@.to_multiset().add(sv.to_multiset()) =~= r0.to_multiset().add(s0.to_multiset()));
        }
    }
    assert(src@.to_multiset() =~= vstd::multiset::Multiset::<JobInfo>::empty());
    assert(r@.to_multiset().add(src@.to_multiset()) =~= r@.to_multiset());
    r
}

/// The mount options of a live workspace: NFS version 3 over TCP to the
/// tunnel's local port, for the server and its mount protocol alike,
/// without locking, soft, with short timeouts and attribute caching.
pub open spec fn nfs_options_spec(port: u16) -> Seq<char> {
    "vers=3,proto=tcp,addr=127.0.0.1,port="@ + dec(port as nat) + ",mountvers=3,mountproto=tcp,mountport="@
        + dec(port as nat) + ",nolock,soft,timeo=100,retrans=3,actimeo=1"@
}

pub fn nfs_options(port: u16) -> (r: String)
    ensures
        r@ == nfs_options_spec(port),
{
    let mut v: Vec<char> = Vec::new();
    push_str(&mut v, "vers=3,proto=tcp,addr=127.0.0.1,port=");
    push_dec(&mut v, port as u64);
    push_str(&mut v, ",mountvers=3,mountproto=tcp,mountport=");
    push_dec(&mut v, port as u64);
    push_str(&mut v, ",nolock,soft,timeo=100,retrans=3,actimeo=1");
    assert(v@ =~= nfs_options_spec(port));
    string_of(v.as_slice())
}

/// The systemd unit that runs exzed as a service with the given flags,
/// restarted always, wanted by the multi-user target as root and by the
/// user's default target otherwise.
pub open spec fn unit_text_spec(exe: Seq<char>, listen: Seq<char>, state: Seq<char>, containers: bool, root: bool) -> Seq<char> {
    "[Unit]\nDescription=exzet daemon\nAfter=network.target\n\n[Service]\nExecStart=\""@ + exe
        + "\" --listen "@ + listen + " --state \""@ + state + "\" --containers "@ + (if containers {
        "true"@
    } else {
        "false"@
    }) + "\nRestart=always\n\n[Install]\nWantedBy="@ + (if root {
        "multi-user.target"@
    } else {
        "default.target"@
    }) + "\n"@
}

pub fn unit_text(exe: &str, listen: &str, state: &str, containers: bool, root: bool) -> (r: String)
    ensures
        r@ == unit_text_spec(exe@, listen@, state@, containers, root),
{
    let mut v: Vec<char> = Vec::new();
    push_str(&mut v, "[Unit]\nDescription=exzet daemon\nAfter=network.target\n\n[Service]\nExecStart=\"");
    push_str(&mut v, exe);
    push_str(&mut v, "\" --listen ");
    push_str(&mut v, listen);
    push_str(&mut v, " --state \"");
    push_str(&mut v, state);
    push_str(&mut v, "\" --containers ");
    let ghost a = v@;
    if containers {
        push_str(&mut v, "true");
    } else {
        push_str(&mut v, "false");
    }
    let ghost b = v@;
    push_str(&mut v, "\nRestart=always\n\n[Install]\nWantedBy=");
    let ghost c = v@;
    if root {
        push_str(&mut v, "multi-user.target");
    } else {
        push_str(&mut v, "default.target");
    }
    let ghost d = v@;
    push_str(&mut v, "\n");
    proof {
        let x = if containers { "true"@ } else { "false"@ };
        let y = if root { "multi-user.target"@ } else { "default.target"@ };
        assert(b == a + x);
        assert(d == c + y);
        assert(v@ =~= unit_text_spec(exe@, listen@, state@, containers, root));
    }
    string_of(v.as_slice())
}

/// The port part of a listen address: what follows its last `:`.
pub open spec fn listen_port_spec(listen: Seq<char>) -> Seq<char> {
    match split_last(listen, ':') {
        Some((_, p)) => p,
        None => listen,
    }
}

pub fn listen_port(listen: &str) -> (r: String)
    ensures
        r@ == listen_port_spec(listen@),
{
    let c = chars_of(listen);
    let mut i: usize = c.len();
    while i > 0 && c[i - 1] != ':'
        invariant
            i <= c@.len(),
            c@ == listen@,
            rfind_char_before(c@, ':', c@.len() as int) == rfind_char_before(c@, ':', i as int),
        decreases i,
    {
        i -= 1;
    }
    if i == 0 {
        string_of_str(listen)
    } else {
        let p = copy_range(c.as_slice(), i, c.len());
        string_of(p.as_slice())
    }
}

/// The line that tells how to reach this server: `server entry:` and the
/// entry `token@host:port` that clients take.
pub open spec fn server_entry_spec(token: Seq<char>, host: Seq<char>, port: Seq<char>) -> Seq<char> {
    "server entry: "@ + token + seq!['@'] + host + seq![':'] + port
}

pub fn server_entry(token: &str, host: &str, port: &str) -> (r: String)
    ensures
        r@ == server_entry_spec(token@, host@, port@),
{
    let mut v: Vec<char> = Vec::new();
    push_str(&mut v, "server entry: ");
    push_str(&mut v, token);
    v.push('@');
    push_str(&mut v, host);
    v.push(':');
    push_str(&mut v, port);
    assert(v@ =~= server_entry_spec(token@, host@, port@));
    string_of(v.as_slice())
}

/// What the command line of exzed asks for.
pub struct DaemonArgs {
    pub listen: String,
    pub state: String,
    pub token: Option<String>,
    pub containers: bool,
    pub service: Option<bool>,
}

pub struct DaemonArgsView {
    pub listen: Seq<char>,
    pub state: Seq<char>,
    pub token: Option<Seq<char>>,
    pub containers: bool,
    pub service: Option<bool>,
}

impl View for DaemonArgs {
    type V = DaemonArgsView;

    open spec fn view(&self) -> DaemonArgsView {
        DaemonArgsView {
            listen: self.listen@,
            state: self.state@,
            token: match self.token {
                Some(t) => Some(t@),
                None => None,
            },
            containers: self.containers,
            service: self.service,
        }
    }
}

/// Why the command line of exzed is refused.
#[derive(Debug, PartialEq, Eq)]
pub enum ArgError {
    NeedsValue { flag: String },
    ContainersNeedsBool,
    UnknownFlag { flag: String },
}

pub enum ArgErrorView {
    NeedsValue { flag: Seq<char> },
    ContainersNeedsBool,
    UnknownFlag { flag: Seq<char> },
}

impl View for ArgError {
    type V = ArgErrorView;

    open spec fn view(&self) -> ArgErrorView {
        match self {
            ArgError::NeedsValue { flag } => ArgErrorView::NeedsValue { flag: flag@ },
            ArgError::ContainersNeedsBool => ArgErrorView::ContainersNeedsBool,
            ArgError::UnknownFlag { flag } => ArgErrorView::UnknownFlag { flag: flag@ },
        }
    }
}

/// What a flag of exzed needs after it, as its error says.
pub open spec fn needs_text(flag: Seq<char>) -> Seq<char> {
    if flag == "--listen"@ {
        "host:port"@
    } else if flag == "--state"@ {
        "a path"@
    } else {
        "a value"@
    }
}

impl ArgError {
    pub fn message(&self) -> (r: String)
        ensures
            r@ == match self {
                ArgError::NeedsValue { flag } => flag@ + " needs "@ + needs_text(flag@),
                ArgError::ContainersNeedsBool => "--containers needs true or false"@,
                ArgError::UnknownFlag { flag } => "unknown flag '"@ + flag@
                    + "' (flags: --listen --state --token --containers --service --disable)"@,
            },
    {
        let mut v: Vec<char> = Vec::new();
        match self {
            ArgError::NeedsValue { flag } => {
                push_str(&mut v, flag.as_str());
                push_str(&mut v, " needs ");
                let f = chars_of(flag.as_str());
                if crate::text::eq_str(f.as_slice(), "--listen") {
                    push_str(&mut v, "host:port");
                } else if crate::text::eq_str(f.as_slice(), "--state") {
                    push_str(&mut v, "a path");
                } else {
                    push_str(&mut v, "a value");
                }
            },
            ArgError::ContainersNeedsBool => push_str(&mut v, "--containers needs true or false"),
            ArgError::UnknownFlag { flag } => {
                push_str(&mut v, "unknown flag '");
                push_str(&mut v, flag.as_str());
                push_str(&mut v, "' (flags: --listen --state --token --containers --service --disable)");
            },
        }
        string_of(v.as_slice())
    }
}

/// The defaults of exzed: listening on every address at the default port,
/// the given state directory, a token of its own, containers allowed, and
/// no service change.
pub open spec fn daemon_defaults(state: Seq<char>) -> DaemonArgsView {
    DaemonArgsView {
        listen: "0.0.0.0:"@ + dec(crate::DEFAULT_PORT as nat),
        state,
        token: None,
        containers: true,
        service: None,
    }
}

/// The command line of exzed read from argument `i` on: `--listen`,
/// `--state`, `--token` and `--containers` take a value (`true` or
/// `false` for the last); `--service` and `--disable` ask to install or
/// remove the service; anything else is refused.
pub open spec fn daemon_args_from(args: Seq<Seq<char>>, i: int, st: DaemonArgsView) -> Result<
    DaemonArgsView,
    ArgErrorView,
>
    decreases args.len() - i,
{
    if i < 0 || i >= args.len() {
        Ok(st)
    } else {
        let a = args[i];
        if a == "--listen"@ || a == "--state"@ || a == "--token"@ {
            if i + 1 >= args.len() {
                Err(ArgErrorView::NeedsValue { flag: a })
            } else {
                let v = args[i + 1];
                let st2 = if a == "--listen"@ {
                    DaemonArgsView { listen: v, ..st }
                } else if a == "--state"@ {
                    DaemonArgsView { state: v, ..st }
                } else {
                    DaemonArgsView { token: Some(v), ..st }
                };
                daemon_args_from(args, i + 2, st2)
            }
        } else if a == "--containers"@ {
            if i + 1 >= args.len() {
                Err(ArgErrorView::ContainersNeedsBool)
            } else if args[i + 1] == "true"@ {
                daemon_args_from(args, i + 2, DaemonArgsView { containers: true, ..st })
            } else if args[i + 1] == "false"@ {
                daemon_args_from(args, i + 2, DaemonArgsView { containers: false, ..st })
            } else {
                Err(ArgErrorView::ContainersNeedsBool)
            }
        } else if a == "--service"@ {
            daemon_args_from(args, i + 1, DaemonArgsView { service: Some(true), ..st })
        } else if a == "--disable"@ {
            daemon_args_from(args, i + 1, DaemonArgsView { service: Some(false), ..st })
        } else {
            Err(ArgErrorView::UnknownFlag { flag: a })
        }
    }
}

fn eq_s(s: &str, lit: &str) -> (r: bool)
    ensures
        r == (s@ == lit@),
{
    let c = chars_of(s);
    crate::text::eq_str(c.as_slice(), lit)
}

/// Reads the arguments of exzed (without the program name), with
/// `default_state` the state directory to use when none is given.
pub fn parse_daemon_args(args: &[String], default_state: &str) -> (r: Result<DaemonArgs, ArgError>)
    ensures
        match r {
            Ok(d) => daemon_args_from(args.deep_view(), 0, daemon_defaults(default_state@)) == Ok::<
                DaemonArgsView,
                ArgErrorView,
            >(d@),
            Err(e) => daemon_args_from(args.deep_view(), 0, daemon_defaults(default_state@)) == Err::<
                DaemonArgsView,
                ArgErrorView,
            >(e@),
        },
{
    let mut listen: Vec<char> = Vec::new();
    push_str(&mut listen, "0.0.0.0:");
    push_dec(&mut listen, crate::DEFAULT_PORT as u64);
    let mut d = DaemonArgs {
        listen: string_of(listen.as_slice()),
        state: string_of_str(default_state),
        token: None,
        containers: true,
        service: None,
    };
    assert(d@ == daemon_defaults(default_state@));
    let ghost av = args.deep_view();
    let mut i: usize = 0;
    while i < args.len()
        invariant
            i <= args@.len(),
            av == args.deep_view(),
            daemon_args_from(av, 0, daemon_defaults(default_state@)) == daemon_args_from(av, i as int, d@),
        decreases args@.len() - i,
    {
        let a = args[i].as_str();
        assert(a@ == av[i as int]);
        if eq_s(a, "--listen") || eq_s(a, "--state") || eq_s(a, "--token") {
            if i + 1 >= args.len() {
                return Err(ArgError::NeedsValue { flag: string_of_str(a) });
            }
            let v = args[i + 1].clone();
            assert(v@ == av[i + 1]);
            if eq_s(a, "--listen") {
                d.listen = v;
            } else if eq_s(a, "--state") {
                d.state = v;
            } else {
                d.token = Some(v);
            }
            i += 2;
        } else if eq_s(a, "--containers") {
            if i + 1 >= args.len() {
                return Err(ArgError::ContainersNeedsBool);
            }
            let v = args[i + 1].as_str();
            assert(v@ == av[i + 1]);
            if eq_s(v, "true") {
                d.containers = true;
            } else if eq_s(v, "false") {
                d.containers = false;
            } else {
                return Err(ArgError::ContainersNeedsBool);
            }
            i += 2;
        } else if eq_s(a, "--service") {
            d.service = Some(true);
            i += 1;
        } else if eq_s(a, "--disable") {
            d.service = Some(false);
            i += 1;
        } else {
            return Err(ArgError::UnknownFlag { flag: string_of_str(a) });
        }
    }
    Ok(d)
}

/// The state directory of exzed: `/var/lib/exzet` as root; otherwise
/// `exzet` under `$XDG_STATE_HOME`, else under `$HOME/.local/state`, else
/// under `/tmp`.
pub open spec fn state_dir_spec(root: bool, xdg_state: Option<Seq<char>>, home: Option<Seq<char>>) -> Seq<char> {
    if root {
        "/var/lib/exzet"@
    } else {
        let base = match xdg_state {
            Some(x) => x,
            None => match home {
                Some(h) => path_join(h, ".local/state"@),
                None => "/tmp"@,
            },
        };
        path_join(base, "exzet"@)
    }
}

pub fn state_dir(root: bool, xdg_state: Option<&str>, home: Option<&str>) -> (r: String)
    ensures
        r@ == state_dir_spec(
            root,
            match xdg_state {
                Some(x) => Some(x@),
                None => None,
            },
            match home {
                Some(h) => Some(h@),
                None => None,
            },
        ),
{
    if root {
        return string_of_str("/var/lib/exzet");
    }
    let base: String = match xdg_state {
        Some(x) => string_of_str(x),
        None => match home {
            Some(h) => {
                let c = chars_of(".local/state");
                join_path(h, c.as_slice())
            },
            None => string_of_str("/tmp"),
        },
    };
    let e = chars_of("exzet");
    join_path(base.as_str(), e.as_slice())
}

} // verus!
