//! The bookkeeping of the live workspace's NFS server: the file ids it hands
//! out for paths, kept stable while files are looked up, created, removed
//! and renamed, and the checks on the names a client sends. Paths are taken
//! as their components (the root `/` is a component of its own), which is
//! how paths compare.
use vstd::prelude::*;

verus! {

/// The id of the workspace root.
pub const ROOT_ID: u64 = 1;

/// A path, as its components.
pub type Comps = Seq<Seq<u8>>;

/// The map an association list stands for: the last value of each key.
pub open spec fn assoc<K, V>(s: Seq<(K, V)>) -> Map<K, V>
    decreases s.len(),
{
    if s.len() == 0 {
        Map::empty()
    } else {
        assoc(s.drop_last()).insert(s.last().0, s.last().1)
    }
}

/// No key occurs twice.
pub open spec fn keys_unique<K, V>(s: Seq<(K, V)>) -> bool {
    forall|i: int, j: int| 0 <= i < j < s.len() ==> (#[trigger] s[i]).0 != (#[trigger] s[j]).0
}

proof fn lemma_assoc_has<K, V>(s: Seq<(K, V)>, i: int)
    requires
        keys_unique(s),
        0 <= i < s.len(),
    ensures
        assoc(s).contains_key(s[i].0),
        assoc(s)[s[i].0] == s[i].1,
    decreases s.len(),
{
    if i < s.len() - 1 {
        let t = s.drop_last();
        assert(t[i] == s[i]);
        assert(s.last() == s[s.len() - 1]);
        lemma_assoc_has(t, i);
    }
}

proof fn lemma_assoc_lacks<K, V>(s: Seq<(K, V)>, k: K)
    requires
        forall|i: int| 0 <= i < s.len() ==> (#[trigger] s[i]).0 != k,
    ensures
        !assoc(s).contains_key(k),
    decreases s.len(),
{
    if s.len() > 0 {
        let t = s.drop_last();
        assert forall|i: int| 0 <= i < t.len() implies (#[trigger] t[i]).0 != k by {
            assert(t[i] == s[i]);
        }
        assert(s.last() == s[s.len() - 1]);
        lemma_assoc_lacks(t, k);
    }
}

proof fn lemma_assoc_dom<K, V>(s: Seq<(K, V)>, k: K)
    ensures
        assoc(s).contains_key(k) <==> exists|i: int| 0 <= i < s.len() && (#[trigger] s[i]).0 == k,
    decreases s.len(),
{
    if s.len() > 0 {
        let t = s.drop_last();
        lemma_assoc_dom(t, k);
        if exists|i: int| 0 <= i < t.len() && (#[trigger] t[i]).0 == k {
            let i = choose|i: int| 0 <= i < t.len() && (#[trigger] t[i]).0 == k;
            assert(s[i] == t[i]);
        }
        if exists|i: int| 0 <= i < s.len() && (#[trigger] s[i]).0 == k {
            let i = choose|i: int| 0 <= i < s.len() && (#[trigger] s[i]).0 == k;
            if i < s.len() - 1 {
                assert(t[i] == s[i]);
            }
        }
    }
}

proof fn lemma_assoc_update<K, V>(s: Seq<(K, V)>, i: int, v: V)
    requires
        keys_unique(s),
        0 <= i < s.len(),
    ensures
        keys_unique(s.update(i, (s[i].0, v))),
        assoc(s.update(i, (s[i].0, v))) == assoc(s).insert(s[i].0, v),
    decreases s.len(),
{
    let u = s.update(i, (s[i].0, v));
    assert forall|a: int, b: int| 0 <= a < b < u.len() implies (#[trigger] u[a]).0 != (#[trigger] u[b]).0 by {
        assert(s[a].0 != s[b].0);
    }
    if i == s.len() - 1 {
        assert(u.drop_last() =~= s.drop_last());
        assert(assoc(u) =~= assoc(s).insert(s[i].0, v));
    } else {
        let t = s.drop_last();
        assert(u.drop_last() =~= t.update(i, (t[i].0, v)));
        lemma_assoc_update(t, i, v);
        assert(s.last().0 != s[i].0);
        assert(assoc(u) =~= assoc(s).insert(s[i].0, v));
    }
}

proof fn lemma_assoc_push<K, V>(s: Seq<(K, V)>, k: K, v: V)
    requires
        keys_unique(s),
        forall|i: int| 0 <= i < s.len() ==> (#[trigger] s[i]).0 != k,
    ensures
        keys_unique(s.push((k, v))),
        assoc(s.push((k, v))) == assoc(s).insert(k, v),
{
    let u = s.push((k, v));
    assert(u.drop_last() =~= s);
    assert forall|a: int, b: int| 0 <= a < b < u.len() implies (#[trigger] u[a]).0 != (#[trigger] u[b]).0 by {
        if b < s.len() {
            assert(u[a] == s[a] && u[b] == s[b]);
        } else {
            assert(u[a] == s[a]);
        }
    }
}

proof fn lemma_assoc_remove<K, V>(s: Seq<(K, V)>, i: int)
    requires
        keys_unique(s),
        0 <= i < s.len(),
    ensures
        keys_unique(s.remove(i)),
        assoc(s.remove(i)) == assoc(s).remove(s[i].0),
    decreases s.len(),
{
    let u = s.remove(i);
    assert forall|a: int, b: int| 0 <= a < b < u.len() implies (#[trigger] u[a]).0 != (#[trigger] u[b]).0 by {
        let a2 = if a < i { a } else { a + 1 };
        let b2 = if b < i { b } else { b + 1 };
        assert(u[a] == s[a2] && u[b] == s[b2]);
    }
    if i == s.len() - 1 {
        assert(u =~= s.drop_last());
        lemma_assoc_lacks(u, s[i].0);
        assert(assoc(u) =~= assoc(s).remove(s[i].0));
    } else {
        let t = s.drop_last();
        assert(u.drop_last() =~= t.remove(i));
        assert(u.last() == s.last());
        lemma_assoc_remove(t, i);
        assert(s.last().0 != s[i].0);
        assert(assoc(u) =~= assoc(s).remove(s[i].0));
    }
}

/// Whether two paths are the same, component by component.
pub fn same_path(a: &Vec<Vec<u8>>, b: &Vec<Vec<u8>>) -> (r: bool)
    ensures
        r == (a.deep_view() == b.deep_view()),
{
    if a.len() != b.len() {
        assert(a.deep_view().len() != b.deep_view().len());
        return false;
    }
    let mut i: usize = 0;
    while i < a.len()
        invariant
            i <= a@.len(),
            a@.len() == b@.len(),
            forall|k: int| 0 <= k < i ==> a.deep_view()[k] == b.deep_view()[k],
        decreases a@.len() - i,
    {
        let x = &a[i];
        let y = &b[i];
        assert(x.deep_view() =~= x@ && y.deep_view() =~= y@);
        if x.len() != y.len() {
            assert(a.deep_view()[i as int].len() != b.deep_view()[i as int].len());
            return false;
        }
        let mut j: usize = 0;
        while j < x.len()
            invariant
                j <= x@.len(),
                i < a@.len(),
                a.deep_view()[i as int] == x@,
                b.deep_view()[i as int] == y@,
                x@.len() == y@.len(),
                forall|k: int| 0 <= k < j ==> x@[k] == y@[k],
            decreases x@.len() - j,
        {
            if x[j] != y[j] {
                assert(a.deep_view()[i as int][j as int] != b.deep_view()[i as int][j as int]);
                return false;
            }
            j += 1;
        }
        assert(x@ =~= y@);
        i += 1;
    }
    assert(a.deep_view() =~= b.deep_view());
    true
}

/// A copy of a path.
pub fn copy_path(a: &Vec<Vec<u8>>) -> (r: Vec<Vec<u8>>)
    ensures
        r.deep_view() == a.deep_view(),
{
    let mut r: Vec<Vec<u8>> = Vec::new();
    let mut i: usize = 0;
    while i < a.len()
        invariant
            i <= a@.len(),
            r.deep_view() == a.deep_view().take(i as int),
        decreases a@.len() - i,
    {
        let c = a[i].clone();
        assert(c.deep_view() =~= c@);
        let ghost before = r.deep_view();
        r.push(c);
        assert(r.deep_view() =~= before.push(a.deep_view()[i as int]));
        assert(r.deep_view() =~= a.deep_view().take(i + 1));
        i += 1;
    }
    assert(a.deep_view().take(a@.len() as int) =~= a.deep_view());
    r
}

/// Whether a name a client sends may name an entry of a directory: it is
/// not empty, not `..`, and holds no `/`.
pub open spec fn name_ok_spec(n: Seq<u8>) -> bool {
    n.len() > 0 && n != seq![0x2eu8, 0x2eu8] && forall|i: int| 0 <= i < n.len() ==> n[i] != 0x2f
}

pub fn name_ok(n: &[u8]) -> (r: bool)
    ensures
        r == name_ok_spec(n@),
{
    if n.len() == 0 {
        return false;
    }
    if n.len() == 2 && n[0] == 0x2e && n[1] == 0x2e {
        assert(n@ =~= seq![0x2eu8, 0x2eu8]);
        return false;
    }
    let mut i: usize = 0;
    while i < n.len()
        invariant
            i <= n@.len(),
            forall|k: int| 0 <= k < i ==> n@[k] != 0x2f,
        decreases n@.len() - i,
    {
        if n[i] == 0x2f {
            return false;
        }
        i += 1;
    }
    proof {
        if n@ == seq![0x2eu8, 0x2eu8] {
            assert(n@.len() == 2 && n@[0] == 0x2e && n@[1] == 0x2e);
        }
    }
    true
}

/// A directory joined with an entry name: `.` names the directory itself.
pub open spec fn join_name_spec(dir: Comps, name: Seq<u8>) -> Comps {
    if name == seq![0x2eu8] {
        dir
    } else {
        dir.push(name)
    }
}

pub fn join_name(dir: &Vec<Vec<u8>>, name: &[u8]) -> (r: Vec<Vec<u8>>)
    ensures
        r.deep_view() == join_name_spec(dir.deep_view(), name@),
{
    let mut r = copy_path(dir);
    if n_is_dot(name) {
        r
    } else {
        let mut c: Vec<u8> = Vec::new();
        let mut i: usize = 0;
        while i < name.len()
            invariant
                i <= name@.len(),
                c@ == name@.take(i as int),
            decreases name@.len() - i,
        {
            c.push(name[i]);
            assert(name@.take(i + 1) =~= name@.take(i as int).push(name@[i as int]));
            i += 1;
        }
        assert(name@.take(name@.len() as int) =~= name@);
        assert(c.deep_view() =~= c@);
        let ghost before = r.deep_view();
        r.push(c);
        assert(r.deep_view() =~= before.push(name@));
        r
    }
}

fn n_is_dot(n: &[u8]) -> (r: bool)
    ensures
        r == (n@ == seq![0x2eu8]),
{
    let r = n.len() == 1 && n[0] == 0x2e;
    proof {
        if n@.len() == 1 {
            assert(n@ == seq![0x2eu8] <==> n@[0] == 0x2e) by {
                if n@[0] == 0x2e {
                    assert(n@ =~= seq![0x2eu8]);
                }
            }
        }
    }
    r
}

/// The directory `..` of `dir` names: the root's own parent is the root;
/// otherwise the directory that holds `dir`, or the root when `dir` has
/// none.
pub open spec fn parent_spec(dir: Comps, root: Comps) -> Comps {
    if dir == root {
        root
    } else if dir.len() == 0 || (dir.len() == 1 && dir[0] == seq![0x2fu8]) {
        root
    } else {
        dir.drop_last()
    }
}

pub fn parent(dir: &Vec<Vec<u8>>, root: &Vec<Vec<u8>>) -> (r: Vec<Vec<u8>>)
    ensures
        r.deep_view() == parent_spec(dir.deep_view(), root.deep_view()),
{
    if same_path(dir, root) {
        return copy_path(root);
    }
    if dir.len() == 0 {
        return copy_path(root);
    }
    if dir.len() == 1 && dir[0].len() == 1 && dir[0][0] == 0x2f {
        assert(dir.deep_view()[0] =~= seq![0x2fu8]);
        return copy_path(root);
    }
    proof {
        if dir@.len() == 1 {
            let c = dir.deep_view()[0];
            assert(c == dir@[0]@);
            if c == seq![0x2fu8] {
                assert(c.len() == 1 && c[0] == 0x2f);
            }
        }
    }
    let mut r = copy_path(dir);
    r.pop();
    assert(r.deep_view() =~= dir.deep_view().drop_last());
    r
}

/// Whether `p` lies at or under `from`, component by component.
pub open spec fn under(p: Comps, from: Comps) -> bool {
    from.len() <= p.len() && p.take(from.len() as int) == from
}

/// `p`, which lies under `from`, moved under `to`.
pub open spec fn moved(p: Comps, from: Comps, to: Comps) -> Comps {
    to + p.skip(from.len() as int)
}

/// The test of lying at or under `from`.
pub open spec fn under_fn(from: Comps) -> spec_fn(Comps) -> bool {
    |p: Comps| under(p, from)
}

/// The two maps are inverse to each other.
pub open spec fn inverse(ids: Map<u64, Comps>, paths: Map<Comps, u64>) -> bool {
    &&& forall|id: u64|
        #[trigger] ids.contains_key(id) ==> paths.contains_key(ids[id]) && paths[ids[id]] == id
    &&& forall|p: Comps|
        #[trigger] paths.contains_key(p) ==> ids.contains_key(paths[p]) && ids[paths[p]] == p
}

/// The state of the table: the path of each id, and the id of each path.
pub struct IdTable {
    by_id: Vec<(u64, Vec<Vec<u8>>)>,
    by_path: Vec<(Vec<Vec<u8>>, u64)>,
    next: u64,
}

/// One path renamed in both maps: its id now names the new path.
pub open spec fn move_one(
    ids: Map<u64, Comps>,
    paths: Map<Comps, u64>,
    old: Comps,
    from: Comps,
    to: Comps,
) -> (Map<u64, Comps>, Map<Comps, u64>) {
    if paths.contains_key(old) {
        let id = paths[old];
        let new = moved(old, from, to);
        (ids.insert(id, new), paths.remove(old).insert(new, id))
    } else {
        (ids, paths)
    }
}

/// The paths of `olds` renamed one after another.
pub open spec fn move_all(
    ids: Map<u64, Comps>,
    paths: Map<Comps, u64>,
    olds: Seq<Comps>,
    from: Comps,
    to: Comps,
) -> (Map<u64, Comps>, Map<Comps, u64>)
    decreases olds.len(),
{
    if olds.len() == 0 {
        (ids, paths)
    } else {
        let (i2, p2) = move_one(ids, paths, olds[0], from, to);
        move_all(i2, p2, olds.drop_first(), from, to)
    }
}

impl IdTable {
    /// The path of each id handed out and not forgotten.
    pub closed spec fn ids(&self) -> Map<u64, Comps> {
        assoc(self.by_id.deep_view())
    }

    /// The id of each path.
    pub closed spec fn paths(&self) -> Map<Comps, u64> {
        assoc(self.by_path.deep_view())
    }

    /// The paths of the table, in the order the table keeps them.
    pub closed spec fn path_order(&self) -> Seq<Comps> {
        self.by_path.deep_view().map_values(|e: (Comps, u64)| e.0)
    }

    /// The next id to hand out.
    pub closed spec fn next_id(&self) -> u64 {
        self.next
    }

    /// Each id names a path whose id it is, and each path has an id that
    /// names it.
    pub open spec fn consistent(&self) -> bool {
        inverse(self.ids(), self.paths())
    }

    pub closed spec fn wf(&self) -> bool {
        &&& keys_unique(self.by_id.deep_view())
        &&& keys_unique(self.by_path.deep_view())
        &&& forall|id: u64| #[trigger] self.ids().contains_key(id) ==> id < self.next
        &&& forall|p: Comps| #[trigger] self.paths().contains_key(p) ==> self.paths()[p] < self.next
    }

    /// A table that knows only the root, as id 1.
    pub fn new(root: &Vec<Vec<u8>>) -> (r: IdTable)
        ensures
            r.wf(),
            r.consistent(),
            r.ids() == Map::<u64, Comps>::empty().insert(ROOT_ID, root.deep_view()),
            r.paths() == Map::<Comps, u64>::empty().insert(root.deep_view(), ROOT_ID),
            r.next_id() == ROOT_ID + 1,
    {
        let mut by_id: Vec<(u64, Vec<Vec<u8>>)> = Vec::new();
        by_id.push((ROOT_ID, copy_path(root)));
        let mut by_path: Vec<(Vec<Vec<u8>>, u64)> = Vec::new();
        by_path.push((copy_path(root), ROOT_ID));
        let r = IdTable { by_id, by_path, next: ROOT_ID + 1 };
        proof {
            let a = r.by_id.deep_view();
            let b = r.by_path.deep_view();
            assert(a.drop_last() =~= Seq::<(u64, Comps)>::empty());
            assert(b.drop_last() =~= Seq::<(Comps, u64)>::empty());
            assert(assoc(a.drop_last()) == Map::<u64, Comps>::empty());
            assert(assoc(b.drop_last()) == Map::<Comps, u64>::empty());
            assert(a.last() == (ROOT_ID, root.deep_view()));
            assert(b.last() == (root.deep_view(), ROOT_ID));
            assert(r.ids() =~= Map::<u64, Comps>::empty().insert(ROOT_ID, root.deep_view()));
            assert(r.paths() =~= Map::<Comps, u64>::empty().insert(root.deep_view(), ROOT_ID));
        }
        r
    }

    /// The id the next new path gets.
    pub fn next(&self) -> (r: u64)
        ensures
            r == self.next_id(),
    {
        self.next
    }

    fn find_path(&self, p: &Vec<Vec<u8>>) -> (r: Option<usize>)
        requires
            self.wf(),
        ensures
            match r {
                Some(i) => i < self.by_path@.len() && self.by_path.deep_view()[i as int].0
                    == p.deep_view(),
                None => !self.paths().contains_key(p.deep_view()),
            },
    {
        let mut i: usize = 0;
        while i < self.by_path.len()
            invariant
                i <= self.by_path@.len(),
                forall|k: int| 0 <= k < i ==> (#[trigger] self.by_path.deep_view()[k]).0 != p.deep_view(),
            decreases self.by_path@.len() - i,
        {
            assert(self.by_path.deep_view()[i as int].0 == self.by_path@[i as int].0.deep_view());
            if same_path(&self.by_path[i].0, p) {
                return Some(i);
            }
            i += 1;
        }
        proof {
            lemma_assoc_lacks(self.by_path.deep_view(), p.deep_view());
        }
        None
    }

    fn find_id(&self, id: u64) -> (r: Option<usize>)
        requires
            self.wf(),
        ensures
            match r {
                Some(i) => i < self.by_id@.len() && self.by_id.deep_view()[i as int].0 == id,
                None => !self.ids().contains_key(id),
            },
    {
        let mut i: usize = 0;
        while i < self.by_id.len()
            invariant
                i <= self.by_id@.len(),
                forall|k: int| 0 <= k < i ==> (#[trigger] self.by_id.deep_view()[k]).0 != id,
            decreases self.by_id@.len() - i,
        {
            if self.by_id[i].0 == id {
                return Some(i);
            }
            i += 1;
        }
        proof {
            lemma_assoc_lacks(self.by_id.deep_view(), id);
        }
        None
    }

    /// The path of an id, if it names one.
    pub fn path_of(&self, id: u64) -> (r: Option<Vec<Vec<u8>>>)
        requires
            self.wf(),
        ensures
            match r {
                Some(p) => self.ids().contains_key(id) && p.deep_view() == self.ids()[id],
                None => !self.ids().contains_key(id),
            },
    {
        match self.find_id(id) {
            Some(i) => {
                proof {
                    lemma_assoc_has(self.by_id.deep_view(), i as int);
                }
                Some(copy_path(&self.by_id[i].1))
            },
            None => None,
        }
    }

    fn set_path(&mut self, p: &Vec<Vec<u8>>, id: u64)
        requires
            old(self).wf(),
            id < old(self).next,
        ensures
            final(self).wf(),
            final(self).paths() == old(self).paths().insert(p.deep_view(), id),
            final(self).ids() == old(self).ids(),
            final(self).next == old(self).next,
            final(self).by_id == old(self).by_id,
    {
        match self.find_path(p) {
            Some(i) => {
                let ghost s = self.by_path.deep_view();
                self.by_path.set(i, (copy_path(p), id));
                proof {
                    lemma_assoc_update(s, i as int, id);
                    assert(self.by_path.deep_view() =~= s.update(i as int, (s[i as int].0, id)));
                }
            },
            None => {
                let ghost s = self.by_path.deep_view();
                self.by_path.push((copy_path(p), id));
                proof {
                    assert forall|k: int| 0 <= k < s.len() implies (#[trigger] s[k]).0 != p.deep_view() by {
                        lemma_assoc_dom(s, p.deep_view());
                        if s[k].0 == p.deep_view() {
                            assert(exists|i: int| 0 <= i < s.len() && (#[trigger] s[i]).0 == p.deep_view());
                        }
                    }
                    lemma_assoc_push(s, p.deep_view(), id);
                    assert(self.by_path.deep_view() =~= s.push((p.deep_view(), id)));
                }
            },
        }
        proof {
            assert forall|q: Comps| #[trigger] self.paths().contains_key(q) implies self.paths()[q]
                < self.next by {
                if q != p.deep_view() {
                    assert(old(self).paths().contains_key(q));
                }
            }
            assert forall|q: u64| #[trigger] self.ids().contains_key(q) implies q < self.next by {
                assert(old(self).ids().contains_key(q));
            }
        }
    }

    fn set_id(&mut self, id: u64, p: &Vec<Vec<u8>>)
        requires
            old(self).wf(),
            id < old(self).next,
        ensures
            final(self).wf(),
            final(self).ids() == old(self).ids().insert(id, p.deep_view()),
            final(self).paths() == old(self).paths(),
            final(self).next == old(self).next,
            final(self).by_path == old(self).by_path,
    {
        match self.find_id(id) {
            Some(i) => {
                let ghost s = self.by_id.deep_view();
                self.by_id.set(i, (id, copy_path(p)));
                proof {
                    lemma_assoc_update(s, i as int, p.deep_view());
                    assert(self.by_id.deep_view() =~= s.update(i as int, (s[i as int].0, p.deep_view())));
                }
            },
            None => {
                let ghost s = self.by_id.deep_view();
                self.by_id.push((id, copy_path(p)));
                proof {
                    assert forall|k: int| 0 <= k < s.len() implies (#[trigger] s[k]).0 != id by {
                        lemma_assoc_dom(s, id);
                        if s[k].0 == id {
                            assert(exists|i: int| 0 <= i < s.len() && (#[trigger] s[i]).0 == id);
                        }
                    }
                    lemma_assoc_push(s, id, p.deep_view());
                    assert(self.by_id.deep_view() =~= s.push((id, p.deep_view())));
                }
            },
        }
        proof {
            assert forall|q: u64| #[trigger] self.ids().contains_key(q) implies q < self.next by {
                if q != id {
                    assert(old(self).ids().contains_key(q));
                }
            }
            assert forall|q: Comps| #[trigger] self.paths().contains_key(q) implies self.paths()[q]
                < self.next by {
                assert(old(self).paths().contains_key(q));
            }
        }
    }

    /// The id of a path: the one it has, or the next one, which from then
    /// on names it.
    pub fn id_for(&mut self, p: &Vec<Vec<u8>>) -> (r: u64)
        requires
            old(self).wf(),
            old(self).next_id() < u64::MAX,
        ensures
            final(self).wf(),
            old(self).paths().contains_key(p.deep_view()) ==> r == old(self).paths()[p.deep_view()]
                && *final(self) == *old(self),
            !old(self).paths().contains_key(p.deep_view()) ==> r == old(self).next_id()
                && final(self).next_id() == old(self).next_id() + 1 && final(self).ids() == old(
                self,
            ).ids().insert(r, p.deep_view()) && final(self).paths() == old(self).paths().insert(
                p.deep_view(),
                r,
            ),
            old(self).consistent() ==> final(self).consistent() && final(self).ids().contains_key(r)
                && final(self).ids()[r] == p.deep_view(),
    {
        match self.find_path(p) {
            Some(i) => {
                proof {
                    lemma_assoc_has(self.by_path.deep_view(), i as int);
                }
                self.by_path[i].1
            },
            None => {
                let id = self.next;
                self.next = self.next + 1;
                proof {
                    assert forall|q: u64| #[trigger] self.ids().contains_key(q) implies q < self.next by {
                        assert(old(self).ids().contains_key(q));
                    }
                    assert forall|q: Comps| #[trigger] self.paths().contains_key(q) implies self.paths()[q]
                        < self.next by {
                        assert(old(self).paths().contains_key(q));
                    }
                }
                self.set_id(id, p);
                self.set_path(p, id);
                proof {
                    if old(self).consistent() {
                        assert(!old(self).ids().contains_key(id));
                        assert forall|q: u64| #[trigger] self.ids().contains_key(q) implies self.paths().contains_key(
                            self.ids()[q],
                        ) && self.paths()[self.ids()[q]] == q by {
                            if q != id {
                                assert(old(self).ids().contains_key(q));
                                assert(old(self).ids()[q] != p.deep_view());
                            }
                        }
                        assert forall|c: Comps| #[trigger] self.paths().contains_key(c) implies self.ids().contains_key(
                            self.paths()[c],
                        ) && self.ids()[self.paths()[c]] == c by {
                            if c != p.deep_view() {
                                assert(old(self).paths().contains_key(c));
                                assert(old(self).paths()[c] < id);
                            }
                        }
                    }
                }
                id
            },
        }
    }

    fn remove_path_at(&mut self, i: usize)
        requires
            old(self).wf(),
            i < old(self).by_path@.len(),
        ensures
            final(self).wf(),
            final(self).paths() == old(self).paths().remove(old(self).by_path.deep_view()[i as int].0),
            final(self).ids() == old(self).ids(),
            final(self).next == old(self).next,
            final(self).by_id == old(self).by_id,
    {
        let ghost s = self.by_path.deep_view();
        self.by_path.remove(i);
        proof {
            lemma_assoc_remove(s, i as int);
            assert(self.by_path.deep_view() =~= s.remove(i as int));
            assert forall|q: u64| #[trigger] self.ids().contains_key(q) implies q < self.next by {
                assert(old(self).ids().contains_key(q));
            }
            assert forall|q: Comps| #[trigger] self.paths().contains_key(q) implies self.paths()[q]
                < self.next by {
                assert(old(self).paths().contains_key(q));
            }
        }
    }

    fn remove_id(&mut self, id: u64)
        requires
            old(self).wf(),
        ensures
            final(self).wf(),
            final(self).ids() == old(self).ids().remove(id),
            final(self).paths() == old(self).paths(),
            final(self).next == old(self).next,
            final(self).by_path == old(self).by_path,
    {
        match self.find_id(id) {
            Some(i) => {
                let ghost s = self.by_id.deep_view();
                self.by_id.remove(i);
                proof {
                    lemma_assoc_remove(s, i as int);
                    assert(self.by_id.deep_view() =~= s.remove(i as int));
                }
            },
            None => {
                assert(self.ids().remove(id) =~= self.ids());
            },
        }
        proof {
            assert forall|q: u64| #[trigger] self.ids().contains_key(q) implies q < self.next by {
                assert(old(self).ids().contains_key(q));
            }
            assert forall|q: Comps| #[trigger] self.paths().contains_key(q) implies self.paths()[q]
                < self.next by {
                assert(old(self).paths().contains_key(q));
            }
        }
    }

    /// Forgets a path and the id it had.
    pub fn forget(&mut self, p: &Vec<Vec<u8>>)
        requires
            old(self).wf(),
        ensures
            final(self).wf(),
            final(self).next_id() == old(self).next_id(),
            old(self).paths().contains_key(p.deep_view()) ==> final(self).paths() == old(self).paths().remove(
                p.deep_view(),
            ) && final(self).ids() == old(self).ids().remove(old(self).paths()[p.deep_view()]),
            !old(self).paths().contains_key(p.deep_view()) ==> *final(self) == *old(self),
            old(self).consistent() ==> final(self).consistent() && !final(self).paths().contains_key(
                p.deep_view(),
            ),
    {
        match self.find_path(p) {
            Some(i) => {
                let id = self.by_path[i].1;
                proof {
                    lemma_assoc_has(self.by_path.deep_view(), i as int);
                }
                self.remove_path_at(i);
                self.remove_id(id);
                proof {
                    if old(self).consistent() {
                        assert forall|q: u64| #[trigger] self.ids().contains_key(q) implies self.paths().contains_key(
                            self.ids()[q],
                        ) && self.paths()[self.ids()[q]] == q by {
                            assert(old(self).ids().contains_key(q));
                            assert(old(self).ids()[q] != p.deep_view());
                        }
                        assert forall|c: Comps| #[trigger] self.paths().contains_key(c) implies self.ids().contains_key(
                            self.paths()[c],
                        ) && self.ids()[self.paths()[c]] == c by {
                            assert(old(self).paths().contains_key(c));
                            assert(old(self).paths()[c] != id);
                        }
                    }
                }
            },
            None => {},
        }
    }

    /// Renames everything at or under `from` to lie under `to`, keeping
    /// each id, one path after the other in the table's order.
    pub fn move_prefix(&mut self, from: &Vec<Vec<u8>>, to: &Vec<Vec<u8>>)
        requires
            old(self).wf(),
        ensures
            final(self).wf(),
            final(self).next_id() == old(self).next_id(),
            (final(self).ids(), final(self).paths()) == move_all(
                old(self).ids(),
                old(self).paths(),
                old(self).path_order().filter(under_fn(from.deep_view())),
                from.deep_view(),
                to.deep_view(),
            ),
    {
        let ghost f = under_fn(from.deep_view());
        let ghost olds = self.path_order().filter(f);
        let mut moving: Vec<Vec<Vec<u8>>> = Vec::new();
        let mut i: usize = 0;
        while i < self.by_path.len()
            invariant
                i <= self.by_path@.len(),
                self.wf(),
                f == under_fn(from.deep_view()),
                moving.deep_view() == self.path_order().take(i as int).filter(f),
            decreases self.by_path@.len() - i,
        {
            let p = &self.by_path[i].0;
            let ghost pv = p.deep_view();
            assert(self.path_order()[i as int] == pv);
            let ghost before = moving.deep_view();
            if is_under(p, from) {
                moving.push(copy_path(p));
                assert(moving.deep_view() =~= before.push(pv));
            }
            proof {
                let t = self.path_order().take(i + 1);
                assert(t.drop_last() =~= self.path_order().take(i as int));
                assert(t.last() == pv);
                assert(f(pv) == under(pv, from.deep_view()));
                reveal(Seq::filter);
                assert(t.filter(f) == if f(pv) {
                    self.path_order().take(i as int).filter(f).push(pv)
                } else {
                    self.path_order().take(i as int).filter(f)
                });
            }
            i += 1;
        }
        assert(self.path_order().take(self.by_path@.len() as int) =~= self.path_order());
        assert(moving.deep_view() == olds);
        let ghost start = (self.ids(), self.paths());
        proof {
            broadcast use vstd::seq_lib::group_filter_ensures;

            assert(olds.skip(0) =~= olds);
            assert forall|j: int| 0 <= j < olds.len() implies under(#[trigger] olds[j], from.deep_view()) by {
                assert(f(olds[j]));
            }
        }
        let mut k: usize = 0;
        while k < moving.len()
            invariant
                k <= moving@.len(),
                self.wf(),
                self.next == old(self).next,
                moving.deep_view() == olds,
                forall|j: int| 0 <= j < olds.len() ==> under(#[trigger] olds[j], from.deep_view()),
                move_all(start.0, start.1, olds, from.deep_view(), to.deep_view()) == move_all(
                    self.ids(),
                    self.paths(),
                    olds.skip(k as int),
                    from.deep_view(),
                    to.deep_view(),
                ),
            decreases moving@.len() - k,
        {
            let old_p = &moving[k];
            assert(old_p.deep_view() == olds[k as int]);
            assert(olds.skip(k as int).drop_first() =~= olds.skip(k + 1));
            assert(olds.skip(k as int)[0] == olds[k as int]);
            match self.find_path(old_p) {
                Some(j) => {
                    let id = self.by_path[j].1;
                    proof {
                        lemma_assoc_has(self.by_path.deep_view(), j as int);
                    }
                    let new_p = moved_path(old_p, from, to);
                    self.remove_path_at(j);
                    self.set_id(id, &new_p);
                    self.set_path(&new_p, id);
                },
                None => {},
            }
            k += 1;
        }
        assert(olds.skip(moving@.len() as int) =~= Seq::<Comps>::empty());
    }
}

/// Whether `p` lies at or under `from`.
fn is_under(p: &Vec<Vec<u8>>, from: &Vec<Vec<u8>>) -> (r: bool)
    ensures
        r == under(p.deep_view(), from.deep_view()),
{
    if from.len() > p.len() {
        return false;
    }
    let mut head: Vec<Vec<u8>> = Vec::new();
    let mut i: usize = 0;
    while i < from.len()
        invariant
            i <= from@.len() <= p@.len(),
            head.deep_view() == p.deep_view().take(i as int),
        decreases from@.len() - i,
    {
        let c = p[i].clone();
        assert(c.deep_view() =~= c@);
        let ghost before = head.deep_view();
        head.push(c);
        assert(head.deep_view() =~= before.push(p.deep_view()[i as int]));
        assert(head.deep_view() =~= p.deep_view().take(i + 1));
        i += 1;
    }
    same_path(&head, from)
}

/// `p` moved from under `from` to under `to`.
fn moved_path(p: &Vec<Vec<u8>>, from: &Vec<Vec<u8>>, to: &Vec<Vec<u8>>) -> (r: Vec<Vec<u8>>)
    requires
        under(p.deep_view(), from.deep_view()),
    ensures
        r.deep_view() == moved(p.deep_view(), from.deep_view(), to.deep_view()),
{
    let mut r = copy_path(to);
    let ghost base = r.deep_view();
    let mut i: usize = from.len();
    let ghost start = i;
    while i < p.len()
        invariant
            start <= i <= p@.len(),
            r.deep_view() == base + p.deep_view().subrange(start as int, i as int),
        decreases p@.len() - i,
    {
        let c = p[i].clone();
        assert(c.deep_view() =~= c@);
        let ghost before = r.deep_view();
        r.push(c);
        assert(r.deep_view() =~= before.push(p.deep_view()[i as int]));
        assert(r.deep_view() =~= base + p.deep_view().subrange(start as int, i + 1));
        i += 1;
    }
    assert(p.deep_view().subrange(start as int, p@.len() as int) =~= p.deep_view().skip(
        from@.len() as int,
    ));
    r
}

/// Byte strings in lexicographic order (the order of names in a directory
/// listing).
pub open spec fn bytes_lt(a: Seq<u8>, b: Seq<u8>) -> bool
    decreases a.len(),
{
    if a.len() == 0 {
        b.len() > 0
    } else if b.len() == 0 {
        false
    } else if a[0] < b[0] {
        true
    } else if a[0] == b[0] {
        bytes_lt(a.drop_first(), b.drop_first())
    } else {
        false
    }
}

fn bytes_less(a: &[u8], b: &[u8]) -> (r: bool)
    ensures
        r == bytes_lt(a@, b@),
{
    let mut i: usize = 0;
    assert(a@.subrange(0, a@.len() as int) =~= a@);
    assert(b@.subrange(0, b@.len() as int) =~= b@);
    while i < a.len() && i < b.len() && a[i] == b[i]
        invariant
            i <= a@.len(),
            i <= b@.len(),
            bytes_lt(a@, b@) == bytes_lt(a@.subrange(i as int, a@.len() as int), b@.subrange(i as int, b@.len() as int)),
        decreases a@.len() - i,
    {
        assert(a@.subrange(i as int, a@.len() as int).drop_first() =~= a@.subrange(i + 1, a@.len() as int));
        assert(b@.subrange(i as int, b@.len() as int).drop_first() =~= b@.subrange(i + 1, b@.len() as int));
        i += 1;
    }
    if i == a.len() {
        i < b.len()
    } else if i == b.len() {
        false
    } else {
        a[i] < b[i]
    }
}

/// How many of the names come at or before `after`.
pub open spec fn count_upto(names: Seq<Seq<u8>>, after: Seq<u8>) -> nat
    decreases names.len(),
{
    if names.len() == 0 {
        0
    } else {
        count_upto(names.drop_last(), after) + if bytes_lt(after, names.last()) {
            0nat
        } else {
            1nat
        }
    }
}

/// Where a directory listing resumes: at the start, or, after the entry
/// named `after`, past every name up to it (in the sorted listing, the
/// position that follows `after`).
pub fn listing_start(names: &Vec<Vec<u8>>, after: Option<&[u8]>) -> (r: usize)
    ensures
        r == match after {
            None => 0nat,
            Some(a) => count_upto(names.deep_view(), a@),
        },
{
    match after {
        None => 0,
        Some(a) => {
            let mut n: usize = 0;
            let mut i: usize = 0;
            while i < names.len()
                invariant
                    i <= names@.len(),
                    n <= i,
                    n == count_upto(names.deep_view().take(i as int), a@),
                decreases names@.len() - i,
            {
                assert(names@[i as int]@ == names.deep_view()[i as int]);
                proof {
                    let t = names.deep_view().take(i + 1);
                    assert(t.drop_last() =~= names.deep_view().take(i as int));
                    assert(t.last() == names.deep_view()[i as int]);
                }
                if !bytes_less(a, names[i].as_slice()) {
                    n += 1;
                }
                i += 1;
            }
            assert(names.deep_view().take(names@.len() as int) =~= names.deep_view());
            n
        },
    }
}

/// One page of a directory listing, from position `i` on with room for
/// `room` more entries, `ok[j]` telling whether entry `j` can be described:
/// the positions listed, in order, skipping those that cannot, and whether
/// the listing ends with this page (no entry is left when the room runs
/// out).
pub open spec fn page_from(ok: Seq<bool>, i: int, room: nat) -> (Seq<int>, bool)
    decreases ok.len() - i,
{
    if i < 0 || i >= ok.len() {
        (seq![], true)
    } else if room == 0 {
        (seq![], false)
    } else if !ok[i] {
        page_from(ok, i + 1, room)
    } else {
        let p = page_from(ok, i + 1, (room - 1) as nat);
        (seq![i] + p.0, p.1)
    }
}

/// The page of a directory listing that starts at position `start` and
/// holds at most `max_entries` entries, as `page_from` says.
pub fn readdir_page(ok: &[bool], start: usize, max_entries: usize) -> (r: (Vec<usize>, bool))
    ensures
        r.0@.len() == page_from(ok@, start as int, max_entries as nat).0.len(),
        forall|k: int|
            0 <= k < r.0@.len() ==> r.0@[k] as int == page_from(ok@, start as int, max_entries as nat).0[k],
        r.1 == page_from(ok@, start as int, max_entries as nat).1,
{
    let ghost whole = page_from(ok@, start as int, max_entries as nat);
    let mut out: Vec<usize> = Vec::new();
    let mut i: usize = start;
    let mut room: usize = max_entries;
    let ghost mut acc: Seq<int> = seq![];
    while i < ok.len()
        invariant
            whole == page_from(ok@, start as int, max_entries as nat),
            out@.len() == acc.len(),
            forall|k: int| 0 <= k < out@.len() ==> out@[k] as int == acc[k],
            acc + page_from(ok@, i as int, room as nat).0 == whole.0,
            page_from(ok@, i as int, room as nat).1 == whole.1,
        decreases ok@.len() - i,
    {
        if room == 0 {
            return (out, false);
        }
        if ok[i] {
            let ghost rest = page_from(ok@, i + 1, (room - 1) as nat);
            assert(acc + page_from(ok@, i as int, room as nat).0 == acc.push(i as int) + rest.0) by {
                assert(acc + (seq![i as int] + rest.0) =~= acc.push(i as int) + rest.0);
            }
            out.push(i);
            proof {
                acc = acc.push(i as int);
            }
            room = room - 1;
        }
        i += 1;
    }
    assert(acc + seq![] =~= acc);
    (out, true)
}

/// Neither path lies at or under the other.
pub open spec fn apart(a: Comps, b: Comps) -> bool {
    !under(a, b) && !under(b, a)
}

proof fn lemma_apart(q: Comps, from: Comps, to: Comps)
    requires
        apart(from, to),
    ensures
        !(under(q, from) && under(q, to)),
{
    if under(q, from) && under(q, to) {
        if from.len() <= to.len() {
            assert(to.take(from.len() as int) =~= q.take(from.len() as int));
        } else {
            assert(from.take(to.len() as int) =~= q.take(to.len() as int));
        }
    }
}

proof fn lemma_moved(a: Comps, b: Comps, from: Comps, to: Comps)
    requires
        under(a, from),
        under(b, from),
    ensures
        under(moved(a, from, to), to),
        moved(a, from, to) == moved(b, from, to) ==> a == b,
{
    let ma = moved(a, from, to);
    assert(ma.take(to.len() as int) =~= to);
    if ma == moved(b, from, to) {
        assert(a.skip(from.len() as int) =~= ma.skip(to.len() as int));
        assert(b.skip(from.len() as int) =~= ma.skip(to.len() as int));
        assert(a =~= a.take(from.len() as int) + a.skip(from.len() as int));
        assert(b =~= b.take(from.len() as int) + b.skip(from.len() as int));
    }
}

proof fn lemma_move_all(
    ids: Map<u64, Comps>,
    paths: Map<Comps, u64>,
    olds: Seq<Comps>,
    from: Comps,
    to: Comps,
)
    requires
        inverse(ids, paths),
        apart(from, to),
        forall|j: int| 0 <= j < olds.len() ==> paths.contains_key(#[trigger] olds[j]) && under(olds[j], from),
        forall|j: int, k: int| 0 <= j < k < olds.len() ==> #[trigger] olds[j] != #[trigger] olds[k],
        forall|j: int| 0 <= j < olds.len() ==> !paths.contains_key(moved(#[trigger] olds[j], from, to)),
    ensures
        inverse(move_all(ids, paths, olds, from, to).0, move_all(ids, paths, olds, from, to).1),
        move_all(ids, paths, olds, from, to).0.dom() == ids.dom(),
        forall|id: u64|
            #[trigger] ids.contains_key(id) ==> move_all(ids, paths, olds, from, to).0[id] == if olds.contains(
                ids[id],
            ) {
                moved(ids[id], from, to)
            } else {
                ids[id]
            },
    decreases olds.len(),
{
    if olds.len() > 0 {
        let o = olds[0];
        let id0 = paths[o];
        let m = moved(o, from, to);
        let ids1 = ids.insert(id0, m);
        let paths1 = paths.remove(o).insert(m, id0);
        assert(move_one(ids, paths, o, from, to) == (ids1, paths1));
        lemma_moved(o, o, from, to);
        lemma_apart(m, from, to);
        assert(inverse(ids1, paths1)) by {
            assert forall|id: u64| #[trigger] ids1.contains_key(id) implies paths1.contains_key(ids1[id])
                && paths1[ids1[id]] == id by {
                if id != id0 {
                    let q = ids[id];
                    assert(paths[q] == id);
                    assert(q != o);
                    assert(q != m);
                }
            }
            assert forall|q: Comps| #[trigger] paths1.contains_key(q) implies ids1.contains_key(paths1[q])
                && ids1[paths1[q]] == q by {
                if q != m {
                    assert(paths.contains_key(q) && q != o);
                    assert(ids[paths[q]] == q);
                    assert(paths[q] != id0);
                }
            }
        }
        let rest = olds.drop_first();
        assert forall|j: int| 0 <= j < rest.len() implies paths1.contains_key(#[trigger] rest[j]) && under(
            rest[j],
            from,
        ) by {
            assert(rest[j] == olds[j + 1]);
            assert(olds[0] != olds[j + 1]);
        }
        assert forall|j: int, k: int| 0 <= j < k < rest.len() implies #[trigger] rest[j] != #[trigger] rest[k] by {
            assert(rest[j] == olds[j + 1] && rest[k] == olds[k + 1]);
        }
        assert forall|j: int| 0 <= j < rest.len() implies !paths1.contains_key(moved(#[trigger] rest[j], from, to)) by {
            assert(rest[j] == olds[j + 1]);
            assert(olds[0] != olds[j + 1]);
            lemma_moved(olds[j + 1], o, from, to);
            lemma_moved(olds[j + 1], olds[j + 1], from, to);
            lemma_apart(moved(olds[j + 1], from, to), from, to);
        }
        lemma_move_all(ids1, paths1, rest, from, to);
        assert forall|id: u64| #[trigger] ids.contains_key(id) implies move_all(ids, paths, olds, from, to).0[id]
            == if olds.contains(ids[id]) {
            moved(ids[id], from, to)
        } else {
            ids[id]
        } by {
            assert(ids1.contains_key(id));
            if id == id0 {
                assert(ids[id0] == o);
                assert(olds[0] == o);
                if rest.contains(m) {
                    let k = choose|k: int| 0 <= k < rest.len() && rest[k] == m;
                    assert(under(rest[k], from));
                }
            } else {
                let q = ids[id];
                assert(q != o);
                assert(ids1[id] == q);
                if olds.contains(q) {
                    let k = choose|k: int| 0 <= k < olds.len() && olds[k] == q;
                    assert(k > 0);
                    assert(rest[k - 1] == q);
                }
                if rest.contains(q) {
                    let k = choose|k: int| 0 <= k < rest.len() && rest[k] == q;
                    assert(olds[k + 1] == q);
                }
            }
        }
        assert(ids1.dom() =~= ids.dom());
    }
}

proof fn lemma_filter_distinct(s: Seq<Comps>, f: spec_fn(Comps) -> bool)
    requires
        forall|j: int, k: int| 0 <= j < k < s.len() ==> #[trigger] s[j] != #[trigger] s[k],
    ensures
        forall|j: int, k: int|
            0 <= j < k < s.filter(f).len() ==> #[trigger] s.filter(f)[j] != #[trigger] s.filter(f)[k],
        forall|j: int| 0 <= j < s.filter(f).len() ==> s.contains(#[trigger] s.filter(f)[j]) && f(s.filter(f)[j]),
        forall|q: Comps| s.contains(q) && f(q) ==> s.filter(f).contains(q),
    decreases s.len(),
{
    reveal(Seq::filter);
    if s.len() > 0 {
        let d = s.drop_last();
        assert forall|j: int, k: int| 0 <= j < k < d.len() implies #[trigger] d[j] != #[trigger] d[k] by {
            assert(d[j] == s[j] && d[k] == s[k]);
        }
        lemma_filter_distinct(d, f);
        let fd = d.filter(f);
        let fs = s.filter(f);
        assert forall|j: int| 0 <= j < fs.len() implies s.contains(#[trigger] fs[j]) && f(fs[j]) by {
            if j < fd.len() {
                assert(fs[j] == fd[j]);
                let k = choose|k: int| 0 <= k < d.len() && d[k] == fd[j];
                assert(s[k] == d[k]);
            } else {
                assert(fs[j] == s.last());
                assert(s[s.len() - 1] == s.last());
            }
        }
        assert forall|j: int, k: int| 0 <= j < k < fs.len() implies #[trigger] fs[j] != #[trigger] fs[k] by {
            if k < fd.len() {
                assert(fs[j] == fd[j] && fs[k] == fd[k]);
            } else {
                assert(fs[j] == fd[j]);
                assert(fs[k] == s.last());
                let m = choose|m: int| 0 <= m < d.len() && d[m] == fd[j];
                assert(s[m] == d[m]);
                assert(s[m] != s[s.len() - 1]);
            }
        }
        assert forall|q: Comps| s.contains(q) && f(q) implies fs.contains(q) by {
            let k = choose|k: int| 0 <= k < s.len() && s[k] == q;
            if k < s.len() - 1 {
                assert(d[k] == q);
                assert(d.contains(q));
                let m = choose|m: int| 0 <= m < fd.len() && fd[m] == q;
                assert(fs[m] == q);
            } else {
                assert(fs[fs.len() - 1] == q);
            }
        }
    }
}

impl IdTable {
    /// Renaming keeps ids: when `from` and `to` lie apart and nothing known
    /// lies at or under `to`, moving `from` to `to` gives every id whose path
    /// lay under `from` the moved path, leaves every other id's path as it
    /// was, and keeps ids and paths inverse to each other.
    pub proof fn lemma_rename_keeps_ids(&self, from: Comps, to: Comps)
        requires
            self.wf(),
            self.consistent(),
            apart(from, to),
            forall|q: Comps| #[trigger] self.paths().contains_key(q) ==> !under(q, to),
        ensures
            ({
                let (ids2, paths2) = move_all(
                    self.ids(),
                    self.paths(),
                    self.path_order().filter(under_fn(from)),
                    from,
                    to,
                );
                &&& inverse(ids2, paths2)
                &&& ids2.dom() == self.ids().dom()
                &&& forall|id: u64|
                    #[trigger] self.ids().contains_key(id) ==> ids2[id] == if under(self.ids()[id], from) {
                        moved(self.ids()[id], from, to)
                    } else {
                        self.ids()[id]
                    }
            }),
    {
        let order = self.path_order();
        let es = self.by_path.deep_view();
        let f = under_fn(from);
        assert forall|j: int, k: int| 0 <= j < k < order.len() implies #[trigger] order[j] != #[trigger] order[k] by {
            assert(order[j] == es[j].0 && order[k] == es[k].0);
        }
        assert forall|q: Comps| order.contains(q) <==> self.paths().contains_key(q) by {
            lemma_assoc_dom(es, q);
            if order.contains(q) {
                let k = choose|k: int| 0 <= k < order.len() && order[k] == q;
                assert(es[k].0 == q);
            }
            if exists|i: int| 0 <= i < es.len() && (#[trigger] es[i]).0 == q {
                let i = choose|i: int| 0 <= i < es.len() && (#[trigger] es[i]).0 == q;
                assert(order[i] == q);
            }
        }
        lemma_filter_distinct(order, f);
        let olds = order.filter(f);
        assert forall|j: int| 0 <= j < olds.len() implies self.paths().contains_key(#[trigger] olds[j]) && under(
            olds[j],
            from,
        ) by {
            assert(order.contains(olds[j]) && f(olds[j]));
        }
        assert forall|j: int| 0 <= j < olds.len() implies !self.paths().contains_key(moved(#[trigger] olds[j], from, to)) by {
            assert(order.contains(olds[j]) && f(olds[j]));
            lemma_moved(olds[j], olds[j], from, to);
        }
        lemma_move_all(self.ids(), self.paths(), olds, from, to);
        assert forall|id: u64| #[trigger] self.ids().contains_key(id) implies (olds.contains(self.ids()[id])
            <==> under(self.ids()[id], from)) by {
            let q = self.ids()[id];
            assert(self.paths().contains_key(q));
            assert(order.contains(q));
            if olds.contains(q) {
                let k = choose|k: int| 0 <= k < olds.len() && olds[k] == q;
                assert(f(olds[k]));
            }
            if under(q, from) {
                assert(f(q));
            }
        }
    }
}

} // verus!
