//! The content-addressed store of workspace files: BLAKE3 content hashes,
//! blob paths, and the files a server still needs.
use vstd::prelude::*;
use crate::proto::FileEntry;
use crate::exfile::utf8_len;
use crate::text::{
    chars_of, copy_range, hex_lower, hex_of, lemma_hex_lower, is_hex_digit, is_ascii_hex, push_range, sort_unique,
    string_of, string_of_str, strictly_sorted,
};

verus! {

/// The BLAKE3 digest (32 bytes) of `data`, as `blake3::hash` computes it.
pub uninterp spec fn blake3_digest(data: Seq<u8>) -> Seq<u8>;

/// What a `blake3::Hasher` has been fed so far.
pub uninterp spec fn hasher_input(h: blake3::Hasher) -> Seq<u8>;

/// `blake3::Hasher`, the incremental hasher, as an opaque type.
#[verifier::external_type_specification]
#[verifier::external_body]
pub struct ExHasher(blake3::Hasher);

/// Calls `blake3::hash` and takes the bytes of the result (`Hash::as_bytes`).
/// Trusted: they are the BLAKE3 digest of `data`, the value named
/// `blake3_digest`, which depends on the bytes of `data` alone.
#[verifier::external_body]
pub(crate) fn blake3_hash(data: &[u8]) -> (r: [u8; 32])
    ensures
        r@ == blake3_digest(data@),
{
    *blake3::hash(data).as_bytes()
}

/// Calls `blake3::Hasher::new`. Trusted: the new hasher has been fed nothing.
#[verifier::external_body]
fn hasher_new() -> (h: blake3::Hasher)
    ensures
        hasher_input(h) == Seq::<u8>::empty(),
{
    blake3::Hasher::new()
}

/// Calls `blake3::Hasher::update`. Trusted: `data` is fed after what the
/// hasher was fed before.
#[verifier::external_body]
fn hasher_update(h: &mut blake3::Hasher, data: &[u8])
    ensures
        hasher_input(*final(h)) == hasher_input(*old(h)) + data@,
{
    h.update(data);
}

/// Calls `blake3::Hasher::finalize` and takes the bytes of the result.
/// Trusted: they are the digest of all that was fed, the same as
/// `blake3::hash` of it (as the crate documents).
#[verifier::external_body]
fn hasher_finalize(h: &blake3::Hasher) -> (r: [u8; 32])
    ensures
        r@ == blake3_digest(hasher_input(*h)),
{
    *h.finalize().as_bytes()
}

/// The content hash of some bytes: their BLAKE3 digest in lower-case hex.
pub open spec fn content_hash(data: Seq<u8>) -> Seq<char> {
    hex_lower(blake3_digest(data))
}

/// The content hash of `data`.
pub fn hash_bytes(data: &[u8]) -> (r: String)
    ensures
        r@ == content_hash(data@),
        valid_hash_spec(r@),
{
    let d = blake3_hash(data);
    proof {
        lemma_hex_lower(d@);
    }
    let h = hex_of(&d);
    string_of(h.as_slice())
}

/// A content hash computed over data that comes in pieces (a file read in
/// chunks).
pub struct ContentHasher {
    h: blake3::Hasher,
}

impl ContentHasher {
    /// The data fed so far.
    pub closed spec fn input(&self) -> Seq<u8> {
        hasher_input(self.h)
    }

    pub fn new() -> (r: ContentHasher)
        ensures
            r.input() == Seq::<u8>::empty(),
    {
        ContentHasher { h: hasher_new() }
    }

    /// Feeds the next piece.
    pub fn update(&mut self, data: &[u8])
        ensures
            final(self).input() == old(self).input() + data@,
    {
        hasher_update(&mut self.h, data);
    }

    /// The content hash of everything fed.
    pub fn finish(&self) -> (r: String)
        ensures
            r@ == content_hash(self.input()),
            valid_hash_spec(r@),
    {
        let d = hasher_finalize(&self.h);
        proof {
            lemma_hex_lower(d@);
        }
        let h = hex_of(&d);
        string_of(h.as_slice())
    }
}

/// A well-formed content hash: 64 hexadecimal digits.
pub open spec fn valid_hash_spec(h: Seq<char>) -> bool {
    h.len() == 64 && forall|i: int| 0 <= i < h.len() ==> is_hex_digit(#[trigger] h[i])
}

/// Whether `h` is 64 hexadecimal digits (either case).
pub fn valid_hash(h: &str) -> (r: bool)
    ensures
        r == valid_hash_spec(h@),
{
    let c = crate::text::chars_of(h);
    if c.len() != 64 {
        return false;
    }
    let mut i: usize = 0;
    while i < c.len()
        invariant
            i <= c@.len(),
            c@ == h@,
            forall|k: int| 0 <= k < i ==> is_hex_digit(#[trigger] c@[k]),
        decreases c@.len() - i,
    {
        if !is_ascii_hex(c[i]) {
            assert(!is_hex_digit(h@[i as int]));
            return false;
        }
        i += 1;
    }
    true
}

/// `base` joined with `rel` as `Path::join` does on Unix: an absolute `rel`
/// replaces `base`; otherwise a `/` goes between them unless `base` is
/// empty or already ends with one.
pub open spec fn path_join(base: Seq<char>, rel: Seq<char>) -> Seq<char> {
    if rel.len() > 0 && rel[0] == '/' {
        rel
    } else if base.len() == 0 {
        rel
    } else if base.last() == '/' {
        base + rel
    } else {
        base + seq!['/'] + rel
    }
}

/// `base` joined with `rel`.
pub fn join_path(base: &str, rel: &[char]) -> (r: String)
    ensures
        r@ == path_join(base@, rel@),
{
    let b = chars_of(base);
    let mut v: Vec<char> = Vec::new();
    if rel.len() > 0 && rel[0] == '/' {
        push_range(&mut v, rel, 0, rel.len());
        assert(rel@.subrange(0, rel@.len() as int) =~= rel@);
    } else {
        push_range(&mut v, b.as_slice(), 0, b.len());
        if b.len() > 0 && b[b.len() - 1] != '/' {
            v.push('/');
        }
        push_range(&mut v, rel, 0, rel.len());
        assert(rel@.subrange(0, rel@.len() as int) =~= rel@);
        assert(b@.subrange(0, b@.len() as int) =~= b@);
    }
    assert(v@ =~= path_join(base@, rel@));
    string_of(v.as_slice())
}

/// How many characters of `h` make up its first two bytes in UTF-8, or -1
/// when byte 2 falls inside a character (or `h` is shorter than 2 bytes).
pub open spec fn two_byte_prefix(h: Seq<char>) -> int {
    if h.len() >= 1 && utf8_len(h[0]) == 2 {
        1
    } else if h.len() >= 2 && utf8_len(h[0]) == 1 && utf8_len(h[1]) == 1 {
        2
    } else {
        -1
    }
}

/// Whether byte 2 of `h` falls between characters (so that its first two
/// bytes name the blob's directory).
pub fn splits_at_two(h: &str) -> (r: bool)
    ensures
        r == (two_byte_prefix(h@) > 0),
{
    let c = chars_of(h);
    if c.len() >= 1 && (c[0] as u32) >= 0x80 && (c[0] as u32) < 0x800 {
        true
    } else if c.len() >= 2 && (c[0] as u32) < 0x80 && (c[1] as u32) < 0x80 {
        true
    } else {
        false
    }
}

/// The blobs of a store: each under a directory named by the first two
/// characters of its hash, in a file named by the rest.
pub struct Store {
    root: String,
}

impl Store {
    /// The directory of the store.
    pub closed spec fn root_spec(&self) -> Seq<char> {
        self.root@
    }

    /// The path of the blob with hash `h`.
    pub open spec fn blob_path_spec(&self, h: Seq<char>) -> Seq<char> {
        let k = two_byte_prefix(h);
        path_join(path_join(self.root_spec(), h.subrange(0, k)), h.subrange(k, h.len() as int))
    }

    /// What comes before a blob's directory name in its path: the root, and a
    /// `/` unless the root is empty or ends with one.
    pub open spec fn blob_prefix(&self) -> Seq<char> {
        let r = self.root_spec();
        if r.len() == 0 {
            r
        } else if r.last() == '/' {
            r
        } else {
            r + seq!['/']
        }
    }

    /// The path of the blob of a valid hash: the prefix, its first two
    /// digits, a `/`, and the other digits.
    pub proof fn lemma_blob_path_shape(&self, h: Seq<char>)
        requires
            valid_hash_spec(h),
        ensures
            self.blob_path_spec(h) == self.blob_prefix() + h.subrange(0, 2) + seq!['/'] + h.subrange(
                2,
                64,
            ),
    {
        assert(is_hex_digit(h[0]) && is_hex_digit(h[1]) && is_hex_digit(h[2]));
        assert(two_byte_prefix(h) == 2);
        let head = h.subrange(0, 2);
        let tail = h.subrange(2, 64);
        assert(head[0] == h[0]);
        assert(tail[0] == h[2]);
        let dir = path_join(self.root_spec(), head);
        assert(dir == self.blob_prefix() + head);
        assert(dir.last() == h[1]);
        assert(self.blob_path_spec(h) =~= self.blob_prefix() + head + seq!['/'] + tail);
    }

    /// Law: two different valid content hashes have different blob paths,
    /// so no blob is ever stored where another one goes.
    pub proof fn lemma_blob_path_injective(&self, h1: Seq<char>, h2: Seq<char>)
        requires
            valid_hash_spec(h1),
            valid_hash_spec(h2),
            h1 != h2,
        ensures
            self.blob_path_spec(h1) != self.blob_path_spec(h2),
    {
        self.lemma_blob_path_shape(h1);
        self.lemma_blob_path_shape(h2);
        let p = self.blob_prefix();
        let a = self.blob_path_spec(h1);
        let b = self.blob_path_spec(h2);
        if a == b {
            assert forall|i: int| 0 <= i < 64 implies h1[i] == h2[i] by {
                if i < 2 {
                    assert(a[p.len() + i] == h1[i]);
                    assert(b[p.len() + i] == h2[i]);
                } else {
                    assert(a[p.len() + 1 + i] == h1[i]);
                    assert(b[p.len() + 1 + i] == h2[i]);
                }
            }
            assert(h1 =~= h2);
        }
    }

    /// A store kept in the directory `root`, which exists.
    pub fn new(root: String) -> (r: Store)
        ensures
            r.root_spec() == root@,
    {
        Store { root }
    }

    pub fn root(&self) -> (r: &str)
        ensures
            r@ == self.root_spec(),
    {
        self.root.as_str()
    }

    pub fn blob_path(&self, hash: &str) -> (r: String)
        requires
            two_byte_prefix(hash@) > 0,
        ensures
            r@ == self.blob_path_spec(hash@),
    {
        let h = chars_of(hash);
        let k: usize = if (h[0] as u32) >= 0x80 { 1 } else { 2 };
        proof {
            if (h@[0] as u32) >= 0x80 {
                assert(utf8_len(h@[0]) != 1);
            } else {
                assert(utf8_len(h@[0]) == 1);
            }
        }
        let head = copy_range(h.as_slice(), 0, k);
        let tail = copy_range(h.as_slice(), k, h.len());
        let dir = join_path(self.root.as_str(), head.as_slice());
        join_path(dir.as_str(), tail.as_slice())
    }

    /// Where a received blob goes: its path in the store when `computed`,
    /// the content hash of what arrived, is the hash it was sent under and
    /// that hash names a blob directory; nothing when the blob is refused.
    pub fn blob_destination(&self, hash: &str, computed: &str) -> (r: Option<String>)
        ensures
            r is Some <==> (computed@ == hash@ && two_byte_prefix(hash@) > 0),
            r matches Some(p) ==> p@ == self.blob_path_spec(hash@),
    {
        let a = chars_of(hash);
        let b = chars_of(computed);
        if !crate::text::eq(a.as_slice(), b.as_slice()) {
            return None;
        }
        if !splits_at_two(hash) {
            return None;
        }
        Some(self.blob_path(hash))
    }

    /// The hashes, in order and each once, of the regular files of `files`
    /// whose blob the store lacks; `present[i]` says whether the blob of
    /// `files[i]` is in the store.
    pub fn missing(&self, files: &[FileEntry], present: &[bool]) -> (r: Vec<String>)
        requires
            present@.len() == files@.len(),
        ensures
            strictly_sorted(r.deep_view()),
            r.deep_view().to_set() == missing_set(files@, present@),
    {
        missing_hashes(files, present)
    }
}

/// The hashes, in order and each once, of the regular files of `files`
/// that are missing, `present[i]` saying whether the blob of `files[i]` is
/// there.
pub fn missing_hashes(files: &[FileEntry], present: &[bool]) -> (r: Vec<String>)
    requires
        present@.len() == files@.len(),
    ensures
        strictly_sorted(r.deep_view()),
        r.deep_view().to_set() == missing_set(files@, present@),
{
    let mut v: Vec<Vec<char>> = Vec::new();
    let mut i: usize = 0;
    while i < files.len()
        invariant
            i <= files@.len(),
            present@.len() == files@.len(),
            v.deep_view().to_set() == missing_set(files@.take(i as int), present@.take(i as int)),
        decreases files@.len() - i,
    {
        let ghost before = v.deep_view();
        if files[i].link.is_none() && !present[i] {
            let c = chars_of(files[i].hash.as_str());
            assert(c.deep_view() =~= c@);
            v.push(c);
            assert(v.deep_view() =~= before.push(files@[i as int].hash@));
        }
        proof {
            assert(files@.take(i + 1).drop_last() =~= files@.take(i as int));
            assert(present@.take(i + 1).drop_last() =~= present@.take(i as int));
            assert(files@.take(i + 1).last() == files@[i as int]);
            assert(present@.take(i + 1).last() == present@[i as int]);
            before.lemma_push_to_set_commute(files@[i as int].hash@);
        }
        i += 1;
    }
    assert(files@.take(files@.len() as int) =~= files@);
    assert(present@.take(present@.len() as int) =~= present@);
    let sorted = sort_unique(&v);
    let mut r: Vec<String> = Vec::new();
    let mut j: usize = 0;
    while j < sorted.len()
        invariant
            j <= sorted@.len(),
            r.deep_view() == sorted.deep_view().take(j as int),
        decreases sorted@.len() - j,
    {
        let ghost before = r.deep_view();
        let x = string_of(sorted[j].as_slice());
        assert(sorted@[j as int].deep_view() =~= sorted@[j as int]@);
        assert(x@ == sorted.deep_view()[j as int]);
        r.push(x);
        assert(r.deep_view() =~= before.push(x@));
        assert(r.deep_view() =~= sorted.deep_view().take(j + 1));
        j += 1;
    }
    assert(sorted.deep_view().take(sorted@.len() as int) =~= sorted.deep_view());
    r
}

/// The permission bits of a file put into a workspace: its own, and at
/// least read and write for the owner.
pub fn hydrated_mode(mode: u32) -> (r: u32)
    ensures
        r == mode | 0o600,
{
    mode | 0o600
}

/// The hashes of the regular files among `files` whose blob is absent.
pub open spec fn missing_set(files: Seq<FileEntry>, present: Seq<bool>) -> Set<Seq<char>>
    decreases files.len(),
{
    if files.len() == 0 || present.len() == 0 {
        Set::empty()
    } else {
        let rest = missing_set(files.drop_last(), present.drop_last());
        if files.last().link is None && !present.last() {
            rest.insert(files.last().hash@)
        } else {
            rest
        }
    }
}

/// A hash is among those a store still needs exactly when some regular file
/// of the manifest has it and its blob is absent.
pub proof fn lemma_missing_set(files: Seq<FileEntry>, present: Seq<bool>, h: Seq<char>)
    requires
        present.len() == files.len(),
    ensures
        missing_set(files, present).contains(h) <==> exists|i: int|
            0 <= i < files.len() && files[i].link is None && !present[i] && #[trigger] files[i].hash@
                == h,
    decreases files.len(),
{
    if files.len() > 0 {
        let fl = files.drop_last();
        let pl = present.drop_last();
        lemma_missing_set(fl, pl, h);
        let n = files.len() - 1;
        if missing_set(files, present).contains(h) {
            if missing_set(fl, pl).contains(h) {
                let i = choose|i: int|
                    0 <= i < fl.len() && fl[i].link is None && !pl[i] && #[trigger] fl[i].hash@ == h;
                assert(files[i] == fl[i] && present[i] == pl[i]);
            } else {
                assert(files[n].hash@ == h);
            }
        }
        if exists|i: int|
            0 <= i < files.len() && files[i].link is None && !present[i] && #[trigger] files[i].hash@
                == h {
            let i = choose|i: int|
                0 <= i < files.len() && files[i].link is None && !present[i] && #[trigger] files[i].hash@
                    == h;
            if i < n {
                assert(fl[i] == files[i] && pl[i] == present[i]);
                assert(fl[i].hash@ == h);
            }
        }
    }
}

/// The last value paired with each key, as a map.
pub open spec fn pairs_map(p: Seq<(Seq<char>, Seq<char>)>) -> Map<Seq<char>, Seq<char>>
    decreases p.len(),
{
    if p.len() == 0 {
        Map::empty()
    } else {
        pairs_map(p.drop_last()).insert(p.last().0, p.last().1)
    }
}

proof fn lemma_pairs_map_tail(p: Seq<(Seq<char>, Seq<char>)>, i: int, h: Seq<char>)
    requires
        0 <= i <= p.len(),
        forall|j: int| i <= j < p.len() ==> (#[trigger] p[j]).0 != h,
    ensures
        pairs_map(p).contains_key(h) == pairs_map(p.take(i)).contains_key(h),
        pairs_map(p).contains_key(h) ==> pairs_map(p)[h] == pairs_map(p.take(i))[h],
    decreases p.len() - i,
{
    if i < p.len() {
        let q = p.drop_last();
        assert(q.take(i) =~= p.take(i));
        assert forall|j: int| i <= j < q.len() implies (#[trigger] q[j]).0 != h by {
            assert(q[j] == p[j]);
        }
        lemma_pairs_map_tail(q, i, h);
        assert(p.last() == p[p.len() - 1]);
    } else {
        assert(p.take(i) =~= p);
    }
}

/// A scanned workspace: its files in the order met, and where to read the
/// content of each hash.
pub struct Scan {
    pub files: Vec<FileEntry>,
    pub by_hash: Vec<(String, String)>,
}

impl Scan {
    /// Where the content of each hash is read from: the last file met with it.
    pub open spec fn sources(&self) -> Map<Seq<char>, Seq<char>> {
        pairs_map(self.by_hash.deep_view())
    }

    /// Every regular file recorded has a source for its hash.
    pub open spec fn covers(&self) -> bool {
        forall|i: int|
            0 <= i < self.files@.len() && (#[trigger] self.files@[i]).link is None
                ==> self.sources().contains_key(self.files@[i].hash@)
    }

    pub fn new() -> (r: Scan)
        ensures
            r.covers(),
            r.files@.len() == 0,
            r.sources() == Map::<Seq<char>, Seq<char>>::empty(),
    {
        Scan { files: Vec::new(), by_hash: Vec::new() }
    }

    /// Records a symbolic link at `rel` that points to `target`.
    pub fn add_link(&mut self, rel: String, target: String)
        ensures
            final(self).files@.len() == old(self).files@.len() + 1,
            final(self).files@.take(old(self).files@.len() as int) == old(self).files@,
            final(self).files@.last().path@ == rel@,
            final(self).files@.last().mode == 0o777,
            final(self).files@.last().hash@ == Seq::<char>::empty(),
            final(self).files@.last().link == Some(target),
            final(self).sources() == old(self).sources(),
            old(self).covers() ==> final(self).covers(),
    {
        self.files.push(FileEntry { path: rel, mode: 0o777, hash: String::new(), link: Some(target) });
        assert(self.files@.take(old(self).files@.len() as int) =~= old(self).files@);
        proof {
            if old(self).covers() {
                assert forall|i: int|
                    0 <= i < self.files@.len() && (#[trigger] self.files@[i]).link is None implies self.sources().contains_key(
                        self.files@[i].hash@,
                    ) by {
                    if i < old(self).files@.len() {
                        assert(self.files@[i] == old(self).files@[i]);
                    }
                }
            }
        }
    }

    /// Records a regular file at `rel` with permission bits `mode` and
    /// content hash `hash`, read from `abs`.
    pub fn add_file(&mut self, rel: String, mode: u32, hash: String, abs: String)
        ensures
            final(self).files@.len() == old(self).files@.len() + 1,
            final(self).files@.take(old(self).files@.len() as int) == old(self).files@,
            final(self).files@.last().path@ == rel@,
            final(self).files@.last().mode == mode,
            final(self).files@.last().hash@ == hash@,
            final(self).files@.last().link is None,
            final(self).sources() == old(self).sources().insert(hash@, abs@),
            old(self).covers() ==> final(self).covers(),
    {
        let ghost before = self.by_hash.deep_view();
        let h = hash.clone();
        self.files.push(FileEntry { path: rel, mode, hash, link: None });
        self.by_hash.push((h, abs));
        assert(self.files@.take(old(self).files@.len() as int) =~= old(self).files@);
        assert(self.by_hash.deep_view().drop_last() =~= before);
        proof {
            if old(self).covers() {
                assert forall|i: int|
                    0 <= i < self.files@.len() && (#[trigger] self.files@[i]).link is None implies self.sources().contains_key(
                        self.files@[i].hash@,
                    ) by {
                    if i < old(self).files@.len() {
                        assert(self.files@[i] == old(self).files@[i]);
                        assert(old(self).sources().contains_key(self.files@[i].hash@));
                    }
                }
            }
        }
    }

    /// Where to read the content with hash `hash`, if a file has it.
    pub fn source(&self, hash: &str) -> (r: Option<String>)
        ensures
            match r {
                Some(p) => self.sources().contains_key(hash@) && p@ == self.sources()[hash@],
                None => !self.sources().contains_key(hash@),
            },
    {
        let h = string_of_str(hash);
        let ghost p = self.by_hash.deep_view();
        let mut i: usize = self.by_hash.len();
        while i > 0
            invariant
                i <= p.len(),
                p == self.by_hash.deep_view(),
                h@ == hash@,
                forall|j: int| i <= j < p.len() ==> (#[trigger] p[j]).0 != hash@,
            decreases i,
        {
            if self.by_hash[i - 1].0 == h {
                proof {
                    lemma_pairs_map_tail(p, i as int, hash@);
                    assert(p.take(i as int).last() == p[i - 1]);
                }
                return Some(self.by_hash[i - 1].1.clone());
            }
            i -= 1;
        }
        proof {
            lemma_pairs_map_tail(p, 0, hash@);
            assert(p.take(0) =~= Seq::<(Seq<char>, Seq<char>)>::empty());
        }
        None
    }
}

} // verus!
