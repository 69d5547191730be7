//! The wire protocol between exzec and exzed: control messages and raw data
//! in length-prefixed frames, relative paths that are safe to write under a
//! workspace, token comparison, and the multiplexed tunnel that carries a
//! live workspace.
use vstd::prelude::*;
use crate::exfile::Task;
use crate::text::{
    chars_of, dec, eq_str, find_char, lemma_find_char_from, push_dec, push_str, split_char,
    split_char_in, starts_with, string_of,
};

verus! {

/// The largest raw data frame a sender produces.
pub const CHUNK: usize = 1048576;

/// The largest frame body a receiver accepts.
pub const MAX_FRAME: usize = 1048640;

/// A file of a workspace: its relative path, permission bits, content hash,
/// and, for a symbolic link, its target.
#[derive(Debug)]
pub struct FileEntry {
    pub path: String,
    pub mode: u32,
    pub hash: String,
    pub link: Option<String>,
}

/// A job that exzed knows of, as `ps` lists it.
#[derive(Debug)]
pub struct JobInfo {
    pub job: String,
    pub name: String,
    pub code: Option<i32>,
}

/// A control message.
#[derive(Debug)]
pub enum Msg {
    Hello { token: String, task: Task, rank0: u32, ranks: u32, main: String, detach: bool },
    TunnelJoin { token: String, tunnel: String },
    Manifest { files: Vec<FileEntry> },
    Need { hashes: Vec<String> },
    Blob { hash: String, len: u64 },
    TunnelReady { tunnel: String },
    Ready,
    Out { rank: u32, err: bool },
    OutFile { path: String, mode: u32, len: u64 },
    Exit { code: i32 },
    Kill,
    Warn { msg: String },
    Error { msg: String },
    Started { job: String },
    Attach { token: String, job: String },
    Attached { world: u32 },
    Ps { token: String },
    Jobs { jobs: Vec<JobInfo> },
}

/// What one frame carries.
pub enum Frame {
    Json(Msg),
    Raw(Vec<u8>),
}

/// Why a frame or a stream of frames was refused.
#[derive(Debug, PartialEq, Eq, Structural)]
pub enum FrameError {
    /// The stream ended inside a frame.
    Closed,
    /// A length of zero or above `MAX_FRAME`.
    BadLength { len: u32 },
    /// A tag other than `J` and `R`.
    BadTag { tag: u8 },
    /// A data frame where a control message was expected.
    NotControl,
    /// A control message where a data frame was expected.
    NotData,
    /// More data than announced.
    Overrun,
}

/// The text that reports a frame error.
pub open spec fn frame_message(e: FrameError) -> Seq<char> {
    match e {
        FrameError::Closed => "connection closed"@,
        FrameError::BadLength { len } => "bad frame length "@ + dec(len as nat),
        FrameError::BadTag { tag } => "bad frame tag "@ + dec(tag as nat),
        FrameError::NotControl => "expected a control message"@,
        FrameError::NotData => "expected a data frame"@,
        FrameError::Overrun => "data overrun"@,
    }
}

impl FrameError {
    /// The text that reports this error, as `frame_message` says.
    pub fn message(&self) -> (r: String)
        ensures
            r@ == frame_message(*self),
    {
        let mut v: Vec<char> = Vec::new();
        match self {
            FrameError::Closed => push_str(&mut v, "connection closed"),
            FrameError::BadLength { len } => {
                push_str(&mut v, "bad frame length ");
                push_dec(&mut v, *len as u64);
            },
            FrameError::BadTag { tag } => {
                push_str(&mut v, "bad frame tag ");
                push_dec(&mut v, *tag as u64);
            },
            FrameError::NotControl => push_str(&mut v, "expected a control message"),
            FrameError::NotData => push_str(&mut v, "expected a data frame"),
            FrameError::Overrun => push_str(&mut v, "data overrun"),
        }
        assert(v@ =~= frame_message(*self));
        string_of(v.as_slice())
    }
}

/// The tag of a frame that holds a JSON control message.
pub const TAG_JSON: u8 = 0x4a;

/// The tag of a frame that holds raw data.
pub const TAG_RAW: u8 = 0x52;

/// Big-endian bytes of a 32-bit number.
pub open spec fn be32(n: u32) -> Seq<u8> {
    seq![
        (n / 0x100_0000) as u8,
        ((n / 0x1_0000) % 0x100) as u8,
        ((n / 0x100) % 0x100) as u8,
        (n % 0x100) as u8,
    ]
}

/// The number that big-endian bytes `b[0..4]` spell.
pub open spec fn read_be32(b: Seq<u8>) -> u32 {
    (b[0] as nat * 0x100_0000 + b[1] as nat * 0x1_0000 + b[2] as nat * 0x100 + b[3] as nat) as u32
}

/// A frame: the body length plus one (cut to 32 bits, as an `as u32` cast
/// does), the tag byte, the body.
pub open spec fn frame(tag: u8, body: Seq<u8>) -> Seq<u8> {
    be32(((body.len() + 1) % 0x1_0000_0000) as u32) + seq![tag] + body
}

pub fn be32_bytes(n: u32) -> (r: [u8; 4])
    ensures
        r@ == be32(n),
{
    let a: u8 = (n / 0x100_0000) as u8;
    let b: u8 = ((n / 0x1_0000) % 0x100) as u8;
    let c: u8 = ((n / 0x100) % 0x100) as u8;
    let d: u8 = (n % 0x100) as u8;
    let r = [a, b, c, d];
    assert(r@ =~= be32(n));
    r
}

pub proof fn lemma_be32_roundtrip(n: u32)
    ensures
        read_be32(be32(n)) == n,
{
    let a: u32 = n / 0x100_0000;
    let b: u32 = (n / 0x1_0000) % 0x100;
    let c: u32 = (n / 0x100) % 0x100;
    let d: u32 = n % 0x100;
    assert(a < 0x100 && b < 0x100 && c < 0x100 && d < 0x100) by (bit_vector)
        requires
            a == n / 0x100_0000,
            b == (n / 0x1_0000) % 0x100,
            c == (n / 0x100) % 0x100,
            d == n % 0x100,
    ;
    assert(a * 0x100_0000 + b * 0x1_0000 + c * 0x100 + d == n) by (bit_vector)
        requires
            a == n / 0x100_0000,
            b == (n / 0x1_0000) % 0x100,
            c == (n / 0x100) % 0x100,
            d == n % 0x100,
    ;
    let s = be32(n);
    assert(s[0] as nat == a && s[1] as nat == b && s[2] as nat == c && s[3] as nat == d);
}

/// The five bytes that go before a frame body of `len` bytes.
pub fn frame_header(tag: u8, len: usize) -> (r: Vec<u8>)
    ensures
        r@ == be32(((len + 1) % 0x1_0000_0000) as u32) + seq![tag],
{
    let n: u32 = if len < 0xffff_ffff {
        (len + 1) as u32
    } else {
        ((len as u128 + 1) % 0x1_0000_0000) as u32
    };
    let b = be32_bytes(n);
    let mut r: Vec<u8> = Vec::new();
    r.push(b[0]);
    r.push(b[1]);
    r.push(b[2]);
    r.push(b[3]);
    r.push(tag);
    assert(r@ =~= be32(((len + 1) % 0x1_0000_0000) as u32) + seq![tag]);
    r
}

/// A whole frame.
pub fn encode_frame(tag: u8, body: &[u8]) -> (r: Vec<u8>)
    ensures
        r@ == frame(tag, body@),
{
    let mut r = frame_header(tag, body.len());
    let ghost h = r@;
    let mut i: usize = 0;
    while i < body.len()
        invariant
            i <= body@.len(),
            r@ == h + body@.take(i as int),
        decreases body@.len() - i,
    {
        r.push(body[i]);
        assert(body@.take(i + 1) =~= body@.take(i as int).push(body@[i as int]));
        assert(r@ =~= h + body@.take(i + 1));
        i += 1;
    }
    assert(body@.take(body@.len() as int) =~= body@);
    r
}

/// The body length a frame header announces, or why it is refused.
pub open spec fn body_len_spec(len: u32) -> Result<nat, FrameError> {
    if len == 0 || len > MAX_FRAME {
        Err(FrameError::BadLength { len })
    } else {
        Ok((len - 1) as nat)
    }
}

/// The body length of a frame whose header announces `len`.
pub fn body_len(len: u32) -> (r: Result<usize, FrameError>)
    ensures
        match r {
            Ok(n) => body_len_spec(len) == Ok::<nat, FrameError>(n as nat),
            Err(e) => body_len_spec(len) == Err::<nat, FrameError>(e),
        },
{
    if len == 0 || len as usize > MAX_FRAME {
        Err(FrameError::BadLength { len })
    } else {
        Ok((len - 1) as usize)
    }
}

/// Whether a tag is one of the two kinds of frame, `true` for raw data.
pub open spec fn tag_spec(tag: u8) -> Result<bool, FrameError> {
    if tag == TAG_JSON {
        Ok(false)
    } else if tag == TAG_RAW {
        Ok(true)
    } else {
        Err(FrameError::BadTag { tag })
    }
}

/// The kind of a frame by its tag: `true` for raw data, `false` for a
/// control message.
pub fn frame_is_raw(tag: u8) -> (r: Result<bool, FrameError>)
    ensures
        r == tag_spec(tag),
{
    if tag == TAG_JSON {
        Ok(false)
    } else if tag == TAG_RAW {
        Ok(true)
    } else {
        Err(FrameError::BadTag { tag })
    }
}

/// The first frame of `buf`: its tag, its body and the number of bytes it
/// took, checked in the order a reader meets them (length, then tag once the
/// body is in).
pub open spec fn decode_spec(buf: Seq<u8>) -> Result<(u8, Seq<u8>, nat), FrameError> {
    if buf.len() < 4 {
        Err(FrameError::Closed)
    } else {
        match body_len_spec(read_be32(buf)) {
            Err(e) => Err(e),
            Ok(n) => if buf.len() < 5 + n {
                Err(FrameError::Closed)
            } else {
                match tag_spec(buf[4]) {
                    Err(e) => Err(e),
                    Ok(_) => Ok((buf[4], buf.subrange(5, (5 + n) as int), 5 + n)),
                }
            },
        }
    }
}

/// Reads the first frame of a buffer.
pub fn decode_frame(buf: &[u8]) -> (r: Result<(u8, Vec<u8>, usize), FrameError>)
    ensures
        match r {
            Ok((tag, body, used)) => decode_spec(buf@) == Ok::<(u8, Seq<u8>, nat), FrameError>(
                (tag, body@, used as nat),
            ),
            Err(e) => decode_spec(buf@) == Err::<(u8, Seq<u8>, nat), FrameError>(e),
        },
{
    if buf.len() < 4 {
        return Err(FrameError::Closed);
    }
    let len: u32 = ((buf[0] as u64) * 0x100_0000 + (buf[1] as u64) * 0x1_0000 + (buf[2] as u64) * 0x100
        + (buf[3] as u64)) as u32;
    let n = match body_len(len) {
        Err(e) => {
            return Err(e);
        },
        Ok(n) => n,
    };
    if buf.len() < 5 || buf.len() - 5 < n {
        return Err(FrameError::Closed);
    }
    let tag = buf[4];
    match frame_is_raw(tag) {
        Err(e) => {
            return Err(e);
        },
        Ok(_) => {},
    }
    let mut body: Vec<u8> = Vec::new();
    let mut i: usize = 0;
    while i < n
        invariant
            i <= n,
            n <= MAX_FRAME,
            5 + n <= buf@.len(),
            body@ == buf@.subrange(5, 5 + i),
        decreases n - i,
    {
        body.push(buf[5 + i]);
        assert(body@ =~= buf@.subrange(5, 5 + i + 1));
        i += 1;
    }
    Ok((tag, body, 5 + n))
}

/// Law of the framing: a frame of either kind whose body is within the limit
/// reads back, from any stream that begins with it, as its tag and body.
pub proof fn lemma_frame_roundtrip(tag: u8, body: Seq<u8>, rest: Seq<u8>)
    requires
        tag == TAG_JSON || tag == TAG_RAW,
        body.len() < MAX_FRAME,
    ensures
        decode_spec(frame(tag, body) + rest) == Ok::<(u8, Seq<u8>, nat), FrameError>(
            (tag, body, 5 + body.len()),
        ),
{
    let n = ((body.len() + 1) % 0x1_0000_0000) as u32;
    assert(n == body.len() + 1);
    lemma_be32_roundtrip(n);
    let buf = frame(tag, body) + rest;
    assert(buf.subrange(0, 4) =~= be32(n));
    assert(read_be32(buf) == read_be32(be32(n)));
    assert(buf[4] == tag);
    assert(buf.subrange(5, 5 + body.len() as int) =~= body);
}

/// Law of the framing: what reads as a frame is exactly the frame of what
/// was read, followed by the rest of the stream.
pub proof fn lemma_decode_inverts(buf: Seq<u8>)
    ensures
        decode_spec(buf) matches Ok((tag, body, used)) ==> used <= buf.len() && buf.subrange(
            0,
            used as int,
        ) == frame(tag, body),
{
    match decode_spec(buf) {
        Err(_) => {},
        Ok((tag, body, used)) => {
            let len = read_be32(buf);
            let n = (len - 1) as nat;
            assert(body.len() == n);
            assert(((body.len() + 1) % 0x1_0000_0000) as u32 == len);
            assert(be32(len) =~= buf.subrange(0, 4)) by {
                let b0 = buf[0];
                let b1 = buf[1];
                let b2 = buf[2];
                let b3 = buf[3];
                let (c0, c1, c2, c3) = (b0 as u32, b1 as u32, b2 as u32, b3 as u32);
                assert(len == c0 * 0x100_0000 + c1 * 0x1_0000 + c2 * 0x100 + c3);
                assert((len / 0x100_0000) as u8 == b0 && ((len / 0x1_0000) % 0x100) as u8 == b1 && ((
                len / 0x100) % 0x100) as u8 == b2 && (len % 0x100) as u8 == b3) by (bit_vector)
                    requires
                        len == c0 * 0x100_0000 + c1 * 0x1_0000 + c2 * 0x100 + c3,
                        c0 == b0 as u32,
                        c1 == b1 as u32,
                        c2 == b2 as u32,
                        c3 == b3 as u32,
                ;
            }
            assert(buf.subrange(0, used as int) =~= frame(tag, body));
        },
    }
}

// ---------------------------------------------------------------------------
// Receiving
// ---------------------------------------------------------------------------

/// The control message a frame holds (`recv_msg`).
pub fn expect_control(f: Frame) -> (r: Result<Msg, FrameError>)
    ensures
        f is Json <==> r is Ok,
        r is Err ==> r == Err::<Msg, FrameError>(FrameError::NotControl),
        f matches Frame::Json(m) ==> r == Ok::<Msg, FrameError>(m),
{
    match f {
        Frame::Json(m) => Ok(m),
        Frame::Raw(_) => Err(FrameError::NotControl),
    }
}

/// The count of data received for a blob of announced length (`recv_chunks`).
pub struct ChunkCounter {
    pub got: u64,
    pub len: u64,
}

impl ChunkCounter {
    pub fn new(len: u64) -> (r: ChunkCounter)
        ensures
            r.got == 0,
            r.len == len,
    {
        ChunkCounter { got: 0, len }
    }

    /// Whether all of the announced data came.
    pub fn done(&self) -> (r: bool)
        ensures
            r == (self.got >= self.len),
    {
        self.got >= self.len
    }

    /// Counts a data frame of `n` bytes; refuses one that goes beyond the
    /// announced length. The count wraps at 2^64 as release builds of `u64`
    /// addition do.
    pub fn accept(&mut self, n: usize) -> (r: Result<(), FrameError>)
        ensures
            final(self).len == old(self).len,
            final(self).got == vstd::wrapping::u64_specs::wrapping_add(old(self).got, n as u64),
            r is Ok <==> final(self).got <= final(self).len,
            r is Err ==> r == Err::<(), FrameError>(FrameError::Overrun),
    {
        self.got = self.got.wrapping_add(n as u64);
        if self.got > self.len {
            Err(FrameError::Overrun)
        } else {
            Ok(())
        }
    }

    /// Counts a frame of a data stream: a control message is refused.
    pub fn accept_frame(&mut self, f: &Frame) -> (r: Result<(), FrameError>)
        ensures
            final(self).len == old(self).len,
            f is Json ==> r == Err::<(), FrameError>(FrameError::NotData) && final(self).got == old(
                self,
            ).got,
            f matches Frame::Raw(b) ==> final(self).got == vstd::wrapping::u64_specs::wrapping_add(
                old(self).got,
                b@.len() as u64,
            ) && (r is Ok <==> final(self).got <= final(self).len) && (r is Err ==> r == Err::<
                (),
                FrameError,
            >(FrameError::Overrun)),
    {
        match f {
            Frame::Json(_) => Err(FrameError::NotData),
            Frame::Raw(b) => self.accept(b.len()),
        }
    }
}

/// Law of `ChunkCounter`: data frames that all fit in an announced length
/// whose sum does not wrap are accepted, and once the count is done it equals
/// the announced length exactly.
pub proof fn lemma_chunks_exact(got: u64, n: nat, len: u64)
    requires
        got <= len,
        got + n <= u64::MAX,
    ensures
        vstd::wrapping::u64_specs::wrapping_add(got, n as u64) == got + n,
        (got + n <= len) ==> vstd::wrapping::u64_specs::wrapping_add(got, n as u64) <= len,
        (got + n <= len && got + n >= len) ==> vstd::wrapping::u64_specs::wrapping_add(got, n as u64)
            == len,
{
}

// ---------------------------------------------------------------------------
// Relative paths
// ---------------------------------------------------------------------------

/// Why a path is not a safe relative path.
#[derive(Debug, PartialEq, Eq, Structural)]
pub enum PathError {
    /// An absolute path or one with a `..` component.
    Unsafe,
    /// A path with no component left.
    Empty,
}

/// The text that reports why `path` is not a safe relative path.
pub open spec fn path_message_spec(e: PathError, path: Seq<char>) -> Seq<char> {
    match e {
        PathError::Unsafe => "unsafe path '"@ + path + "'"@,
        PathError::Empty => "empty path"@,
    }
}

/// The text that reports why `path` is not a safe relative path, as
/// `path_message_spec` says.
pub fn path_message(e: &PathError, path: &str) -> (r: String)
    ensures
        r@ == path_message_spec(*e, path@),
{
    let mut v: Vec<char> = Vec::new();
    match e {
        PathError::Unsafe => {
            push_str(&mut v, "unsafe path '");
            push_str(&mut v, path);
            push_str(&mut v, "'");
        },
        PathError::Empty => push_str(&mut v, "empty path"),
    }
    assert(v@ =~= path_message_spec(*e, path@));
    string_of(v.as_slice())
}

/// A component that stays: neither empty nor `.`.
pub open spec fn keep_comp(c: Seq<char>) -> bool {
    c.len() > 0 && c != seq!['.']
}

/// The components of a path between its `/`, without empty and `.` ones.
pub open spec fn comps(parts: Seq<Seq<char>>) -> Seq<Seq<char>>
    decreases parts.len(),
{
    if parts.len() == 0 {
        seq![]
    } else if keep_comp(parts.last()) {
        comps(parts.drop_last()).push(parts.last())
    } else {
        comps(parts.drop_last())
    }
}

/// The components joined with `/` between them.
pub open spec fn join_slash(cs: Seq<Seq<char>>) -> Seq<char>
    decreases cs.len(),
{
    if cs.len() == 0 {
        seq![]
    } else if cs.len() == 1 {
        cs[0]
    } else {
        join_slash(cs.drop_last()) + seq!['/'] + cs.last()
    }
}

/// A path made relative and normal, as `clean_rel` does on Unix: an
/// absolute path or one that climbs with `..` is unsafe, one with no
/// component left is empty, else its components joined with `/`.
pub open spec fn clean_rel_spec(p: Seq<char>) -> Result<Seq<char>, PathError> {
    let cs = comps(split_char(p, '/'));
    if (p.len() > 0 && p[0] == '/') || cs.contains(seq!['.', '.']) {
        Err(PathError::Unsafe)
    } else if cs.len() == 0 {
        Err(PathError::Empty)
    } else {
        Ok(join_slash(cs))
    }
}

/// Whether a component of a path stays in its clean form: everything but
/// the empty component and `.`.
pub open spec fn stays(c: Seq<char>) -> bool {
    c.len() > 0 && c != seq!['.']
}

/// Law of paths: the components kept are exactly, and in order, those that
/// are neither empty nor `.`; names starting with a dot, such as `.github`
/// or `.gitignore`, and `..` among them.
pub proof fn lemma_comps_kept(parts: Seq<Seq<char>>)
    ensures
        comps(parts) == parts.filter(|c: Seq<char>| stays(c)),
    decreases parts.len(),
{
    reveal(Seq::filter);
    if parts.len() > 0 {
        lemma_comps_kept(parts.drop_last());
    }
}

/// Law of paths: a path that is not absolute and holds no `..` component is
/// accepted as the components that are neither empty nor `.`, joined by
/// `/`, unless none is left; an absolute path or one with `..` is unsafe.
pub proof fn lemma_clean_rel_law(p: Seq<char>)
    ensures
        clean_rel_spec(p) == if (p.len() > 0 && p[0] == '/') || split_char(p, '/').contains(
            seq!['.', '.'],
        ) {
            Err(PathError::Unsafe)
        } else if split_char(p, '/').filter(|c: Seq<char>| stays(c)).len() == 0 {
            Err(PathError::Empty)
        } else {
            Ok(join_slash(split_char(p, '/').filter(|c: Seq<char>| stays(c))))
        },
{
    let parts = split_char(p, '/');
    let f = |c: Seq<char>| stays(c);
    lemma_comps_kept(parts);
    let kept = parts.filter(f);
    let dd = seq!['.', '.'];
    assert(stays(dd));
    if parts.contains(dd) {
        let i = choose|i: int| 0 <= i < parts.len() && parts[i] == dd;
        parts.lemma_filter_contains(f, i);
        assert(kept.contains(dd));
    }
    if kept.contains(dd) {
        parts.lemma_filter_contains_rev(f, dd);
    }
}

/// Law of paths: a single name that is not `.` or `..` is a clean relative
/// path as it stands, whether or not it starts with a dot.
pub proof fn lemma_clean_rel_name(p: Seq<char>)
    requires
        p.len() > 0,
        forall|j: int| 0 <= j < p.len() ==> p[j] != '/',
        p != seq!['.'],
        p != seq!['.', '.'],
    ensures
        clean_rel_spec(p) == Ok::<Seq<char>, PathError>(p),
{
    lemma_find_char_from(p, '/', 0);
    assert(split_char(p, '/') == seq![p]);
    let one = seq![p];
    assert(one.drop_last() =~= Seq::<Seq<char>>::empty());
    assert(one.last() == p);
    assert(keep_comp(p));
    assert(comps(one.drop_last()) == Seq::<Seq<char>>::empty());
    assert(comps(one) =~= one);
    assert(!seq![p].contains(seq!['.', '.'])) by {
        if seq![p].contains(seq!['.', '.']) {
            assert(seq![p][0] == p);
        }
    }
}

/// A workspace-relative path as a normal relative path, refusing absolute
/// paths and `..`.
pub fn clean_rel(path: &str) -> (r: Result<String, PathError>)
    ensures
        match r {
            Ok(s) => clean_rel_spec(path@) == Ok::<Seq<char>, PathError>(s@),
            Err(e) => clean_rel_spec(path@) == Err::<Seq<char>, PathError>(e),
        },
{
    let p = chars_of(path);
    let ghost parts = split_char(p@, '/');
    let ps = split_char_in(p.as_slice(), 0, p.len(), '/');
    assert(p@.subrange(0, p@.len() as int) =~= p@);
    let mut out: Vec<char> = Vec::new();
    let mut count: usize = 0;
    let mut climbs = false;
    let mut i: usize = 0;
    while i < ps.len()
        invariant
            i <= ps@.len(),
            ps@.len() == parts.len(),
            parts == split_char(p@, '/'),
            forall|k: int|
                0 <= k < ps@.len() ==> (#[trigger] ps@[k]).0 <= ps@[k].1 <= p@.len() && p@.subrange(
                    ps@[k].0 as int,
                    ps@[k].1 as int,
                ) == parts[k],
            count == comps(parts.take(i as int)).len(),
            count <= i,
            out@ == join_slash(comps(parts.take(i as int))),
            climbs == comps(parts.take(i as int)).contains(seq!['.', '.']),
        decreases ps@.len() - i,
    {
        let (a, b) = ps[i];
        let ghost c = parts[i as int];
        let ghost before = comps(parts.take(i as int));
        assert(parts.take(i + 1).drop_last() =~= parts.take(i as int));
        assert(parts.take(i + 1).last() == c);
        let empty = a == b;
        let dot = b - a == 1 && p[a] == '.';
        assert(dot == (c =~= seq!['.'])) by {
            if b - a == 1 {
                assert(c[0] == p@[a as int]);
            }
        }
        if !empty && !dot {
            let dotdot = b - a == 2 && p[a] == '.' && p[a + 1] == '.';
            assert(dotdot == (c =~= seq!['.', '.'])) by {
                if b - a == 2 {
                    assert(c[0] == p@[a as int]);
                    assert(c[1] == p@[a + 1]);
                }
            }
            if count > 0 {
                out.push('/');
            }
            let ghost o = out@;
            let mut j: usize = a;
            while j < b
                invariant
                    a <= j <= b <= p@.len(),
                    out@ == o + p@.subrange(a as int, j as int),
                decreases b - j,
            {
                out.push(p[j]);
                assert(out@ =~= o + p@.subrange(a as int, j + 1));
                j += 1;
            }
            proof {
                let now = before.push(c);
                assert(comps(parts.take(i + 1)) == now);
                if count > 0 {
                    assert(now.drop_last() =~= before);
                    assert(join_slash(now) == join_slash(before) + seq!['/'] + c);
                } else {
                    assert(before =~= seq![]);
                    assert(now =~= seq![c]);
                }
                assert(now.contains(seq!['.', '.']) == (before.contains(seq!['.', '.']) || c
                    == seq!['.', '.'])) by {
                    if c == seq!['.', '.'] {
                        assert(now[now.len() - 1] == c);
                    }
                    if now.contains(seq!['.', '.']) && c != seq!['.', '.'] {
                        let q = choose|q: int| 0 <= q < now.len() && now[q] == seq!['.', '.'];
                        assert(before[q] == now[q]);
                    }
                    if before.contains(seq!['.', '.']) {
                        let q = choose|q: int| 0 <= q < before.len() && before[q] == seq!['.', '.'];
                        assert(now[q] == before[q]);
                    }
                }
            }
            climbs = climbs || dotdot;
            count = count + 1;
        }
        i += 1;
    }
    assert(parts.take(parts.len() as int) =~= parts);
    if (p.len() > 0 && p[0] == '/') || climbs {
        return Err(PathError::Unsafe);
    }
    if count == 0 {
        return Err(PathError::Empty);
    }
    Ok(crate::text::string_of(out.as_slice()))
}

pub proof fn lemma_comps(parts: Seq<Seq<char>>)
    ensures
        forall|k: int| 0 <= k < comps(parts).len() ==> keep_comp(#[trigger] comps(parts)[k]),
        comps(parts).len() <= parts.len(),
    decreases parts.len(),
{
    if parts.len() > 0 {
        lemma_comps(parts.drop_last());
        let c = comps(parts.drop_last());
        assert forall|k: int| 0 <= k < comps(parts).len() implies keep_comp(
            #[trigger] comps(parts)[k],
        ) by {
            if k < c.len() {
                assert(comps(parts)[k] == c[k]);
            }
        }
    }
}

// ---------------------------------------------------------------------------
// Tokens
// ---------------------------------------------------------------------------

/// Whether two tokens are the same, compared through their BLAKE3 digests
/// in time that does not depend on where they differ.
pub fn token_eq(a: &str, b: &str) -> (r: bool)
    ensures
        r == (crate::cas::blake3_digest(vstd::string::StringSliceAdditionalSpecFns::spec_bytes(a)) == crate::cas::blake3_digest(vstd::string::StringSliceAdditionalSpecFns::spec_bytes(b))),
{
    let ha = crate::cas::blake3_hash(a.as_bytes());
    let hb = crate::cas::blake3_hash(b.as_bytes());
    let mut diff: u8 = 0;
    let mut i: usize = 0;
    while i < 32
        invariant
            i <= 32,
            ha@.len() == 32,
            hb@.len() == 32,
            (diff == 0) == (forall|k: int| 0 <= k < i ==> ha@[k] == hb@[k]),
        decreases 32 - i,
    {
        let x = ha[i];
        let y = hb[i];
        let d2 = diff | (x ^ y);
        assert((d2 == 0) == (diff == 0 && x == y)) by (bit_vector)
            requires
                d2 == diff | (x ^ y),
        ;
        diff = d2;
        i += 1;
    }
    assert((diff == 0) == (ha@ =~= hb@));
    diff == 0
}

// ---------------------------------------------------------------------------
// The tunnel of a live workspace
// ---------------------------------------------------------------------------

/// The header of a tunnel packet: the data length (cut to 32 bits) and the
/// stream id, both big-endian.
pub fn tunnel_header(id: u32, len: usize) -> (r: Vec<u8>)
    ensures
        r@ == be32((len as int % 0x1_0000_0000) as u32) + be32(id),
{
    let n: u32 = (len as u128 % 0x1_0000_0000) as u32;
    let a = be32_bytes(n);
    let b = be32_bytes(id);
    let mut r: Vec<u8> = Vec::new();
    r.push(a[0]);
    r.push(a[1]);
    r.push(a[2]);
    r.push(a[3]);
    r.push(b[0]);
    r.push(b[1]);
    r.push(b[2]);
    r.push(b[3]);
    assert(r@ =~= be32((len as int % 0x1_0000_0000) as u32) + be32(id));
    r
}

/// What the tunnel's reader does with a packet.
#[derive(Debug, PartialEq, Eq, Structural)]
pub enum Route {
    /// Hand the data to the stream; an empty packet also closes it.
    Deliver { close: bool },
    /// Open a connection to the target for this new stream, data first.
    Dial,
    /// Ignore the packet.
    Ignore,
}

/// Where a tunnel packet goes: to its stream when the id is known; on the
/// dialing side a packet with data opens a stream; anything else is dropped.
pub fn route(known: bool, empty: bool, dialer: bool) -> (r: Route)
    ensures
        known ==> r == (Route::Deliver { close: empty }),
        !known && dialer && !empty ==> r == Route::Dial,
        !known && (!dialer || empty) ==> r == Route::Ignore,
{
    if known {
        Route::Deliver { close: empty }
    } else if dialer && !empty {
        Route::Dial
    } else {
        Route::Ignore
    }
}

/// Whether a tunnel packet length is acceptable.
pub fn tunnel_len_ok(len: u32) -> (r: bool)
    ensures
        r == (len <= MAX_FRAME),
{
    len as usize <= MAX_FRAME
}

proof fn lemma_find_first(s: Seq<char>, c: char, k: int)
    requires
        0 <= k <= s.len(),
        forall|j: int| 0 <= j < k ==> s[j] != c,
        k < s.len() ==> s[k] == c,
    ensures
        find_char(s, c) == if k < s.len() {
            Some(k)
        } else {
            None::<int>
        },
{
    lemma_find_char_from(s, c, 0);
}

proof fn lemma_split_concat(x: Seq<char>, y: Seq<char>, c: char)
    ensures
        split_char(x + seq![c] + y, c) == split_char(x, c) + split_char(y, c),
    decreases x.len(),
{
    let s = x + seq![c] + y;
    lemma_find_char_from(x, c, 0);
    match find_char(x, c) {
        None => {
            lemma_find_first(s, c, x.len() as int);
            assert(s.subrange(0, x.len() as int) =~= x);
            assert(s.subrange(x.len() as int + 1, s.len() as int) =~= y);
        },
        Some(k) => {
            lemma_find_first(s, c, k);
            let x2 = x.subrange(k + 1, x.len() as int);
            assert(s.subrange(0, k) =~= x.subrange(0, k));
            assert(s.subrange(k + 1, s.len() as int) =~= x2 + seq![c] + y);
            lemma_split_concat(x2, y, c);
            assert(split_char(x, c) == seq![x.subrange(0, k)] + split_char(x2, c));
            assert(seq![x.subrange(0, k)] + (split_char(x2, c) + split_char(y, c)) =~= (seq![
                x.subrange(0, k),
            ] + split_char(x2, c)) + split_char(y, c));
        },
    }
}

proof fn lemma_split_none(x: Seq<char>, c: char)
    requires
        forall|j: int| 0 <= j < x.len() ==> x[j] != c,
    ensures
        split_char(x, c) == seq![x],
{
    lemma_find_first(x, c, x.len() as int);
}

proof fn lemma_split_join(cs: Seq<Seq<char>>)
    requires
        cs.len() > 0,
        forall|k: int, j: int| 0 <= k < cs.len() && 0 <= j < cs[k].len() ==> #[trigger] cs[k][j] != '/',
    ensures
        split_char(join_slash(cs), '/') == cs,
    decreases cs.len(),
{
    if cs.len() == 1 {
        lemma_split_none(cs[0], '/');
        assert(seq![cs[0]] =~= cs);
    } else {
        let d = cs.drop_last();
        assert forall|k: int, j: int| 0 <= k < d.len() && 0 <= j < d[k].len() implies #[trigger] d[k][j] != '/' by {
            assert(d[k] == cs[k]);
        }
        lemma_split_join(d);
        assert forall|j: int| 0 <= j < cs.last().len() implies cs.last()[j] != '/' by {
            assert(cs[cs.len() - 1][j] != '/');
        }
        lemma_split_none(cs.last(), '/');
        lemma_split_concat(join_slash(d), cs.last(), '/');
        assert(d + seq![cs.last()] =~= cs);
    }
}

proof fn lemma_split_pieces(s: Seq<char>, c: char)
    ensures
        forall|k: int, j: int|
            0 <= k < split_char(s, c).len() && 0 <= j < split_char(s, c)[k].len() ==> #[trigger] split_char(
                s,
                c,
            )[k][j] != c,
    decreases s.len(),
{
    lemma_find_char_from(s, c, 0);
    match find_char(s, c) {
        None => {},
        Some(i) => {
            let rest = s.subrange(i + 1, s.len() as int);
            lemma_split_pieces(rest, c);
            let sp = split_char(s, c);
            assert forall|k: int, j: int| 0 <= k < sp.len() && 0 <= j < sp[k].len() implies #[trigger] sp[k][j] != c by {
                if k > 0 {
                    assert(sp[k] == split_char(rest, c)[k - 1]);
                }
            }
        },
    }
}

proof fn lemma_comps_keep(cs: Seq<Seq<char>>)
    requires
        forall|k: int| 0 <= k < cs.len() ==> keep_comp(#[trigger] cs[k]),
    ensures
        comps(cs) == cs,
    decreases cs.len(),
{
    if cs.len() > 0 {
        let d = cs.drop_last();
        assert forall|k: int| 0 <= k < d.len() implies keep_comp(#[trigger] d[k]) by {
            assert(d[k] == cs[k]);
        }
        lemma_comps_keep(d);
        assert(keep_comp(cs[cs.len() - 1]));
        assert(d.push(cs.last()) =~= cs);
    }
}

proof fn lemma_comps_sub(parts: Seq<Seq<char>>)
    ensures
        forall|k: int| 0 <= k < comps(parts).len() ==> exists|m: int| 0 <= m < parts.len() && #[trigger] comps(parts)[k] == parts[m],
    decreases parts.len(),
{
    if parts.len() > 0 {
        let d = parts.drop_last();
        lemma_comps_sub(d);
        let c = comps(parts);
        assert forall|k: int| 0 <= k < c.len() implies exists|m: int| 0 <= m < parts.len() && #[trigger] c[k] == parts[m] by {
            if k < comps(d).len() {
                assert(c[k] == comps(d)[k]);
                let m = choose|m: int| 0 <= m < d.len() && comps(d)[k] == d[m];
                assert(parts[m] == d[m]);
            } else {
                assert(c[k] == parts[parts.len() - 1]);
            }
        }
    }
}

proof fn lemma_join_first(cs: Seq<Seq<char>>)
    requires
        cs.len() > 0,
        cs[0].len() > 0,
    ensures
        join_slash(cs).len() > 0,
        join_slash(cs)[0] == cs[0][0],
    decreases cs.len(),
{
    if cs.len() > 1 {
        let d = cs.drop_last();
        assert(d[0] == cs[0]);
        lemma_join_first(d);
        assert((join_slash(d) + seq!['/'] + cs.last())[0] == join_slash(d)[0]);
    }
}

/// A cleaned path is safe to write under a workspace: it is relative, its
/// components (what lies between its `/`) are neither empty, `.` nor `..`,
/// and cleaning it again changes nothing.
pub proof fn lemma_clean_rel_safe(p: Seq<char>)
    requires
        clean_rel_spec(p) is Ok,
    ensures
        ({
            let s = clean_rel_spec(p)->Ok_0;
            &&& s.len() > 0 && s[0] != '/'
            &&& forall|k: int|
                0 <= k < split_char(s, '/').len() ==> keep_comp(#[trigger] split_char(s, '/')[k])
                    && split_char(s, '/')[k] != seq!['.', '.']
            &&& clean_rel_spec(s) == Ok::<Seq<char>, PathError>(s)
        }),
{
    let parts = split_char(p, '/');
    let cs = comps(parts);
    let s = join_slash(cs);
    lemma_comps(parts);
    lemma_split_pieces(p, '/');
    lemma_comps_sub(parts);
    assert forall|k: int, j: int| 0 <= k < cs.len() && 0 <= j < cs[k].len() implies #[trigger] cs[k][j] != '/' by {
        let m = choose|m: int| 0 <= m < parts.len() && cs[k] == parts[m];
        assert(parts[m][j] != '/');
    }
    lemma_split_join(cs);
    assert(keep_comp(cs[0]));
    lemma_join_first(cs);
    assert(cs[0][0] != '/');
    lemma_comps_keep(cs);
    assert forall|k: int| 0 <= k < split_char(s, '/').len() implies keep_comp(#[trigger] split_char(s, '/')[k])
        && split_char(s, '/')[k] != seq!['.', '.'] by {
        assert(split_char(s, '/')[k] == cs[k]);
        if cs[k] == seq!['.', '.'] {
            assert(cs.contains(seq!['.', '.']));
        }
    }
}

} // verus!
