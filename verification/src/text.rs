//! Character-level text handling shared by the exfile parser, the wire
//! protocol and the client: whitespace, trimming, searching, splitting,
//! decimal and hexadecimal numerals. Texts are handled as `char` sequences;
//! every executable routine is tied to a spec function over `Seq<char>`.
use vstd::prelude::*;

verus! {

/// Unicode `White_Space`, the property that `char::is_whitespace` tests.
pub open spec fn is_ws(c: char) -> bool {
    let u = c as u32;
    (0x09 <= u <= 0x0d) || u == 0x20 || u == 0x85 || u == 0xa0 || u == 0x1680 || (0x2000 <= u
        <= 0x200a) || u == 0x2028 || u == 0x2029 || u == 0x202f || u == 0x205f || u == 0x3000
}

pub open spec fn is_digit(c: char) -> bool {
    0x30 <= (c as u32) <= 0x39
}

pub open spec fn is_upper(c: char) -> bool {
    0x41 <= (c as u32) <= 0x5a
}

pub open spec fn is_lower(c: char) -> bool {
    0x61 <= (c as u32) <= 0x7a
}

pub open spec fn is_alpha(c: char) -> bool {
    is_upper(c) || is_lower(c)
}

pub open spec fn is_hex_digit(c: char) -> bool {
    is_digit(c) || (0x41 <= (c as u32) <= 0x46) || (0x61 <= (c as u32) <= 0x66)
}

/// The value of an ASCII decimal digit.
pub open spec fn digit_val(c: char) -> nat {
    ((c as u32) - 0x30) as nat
}

pub fn is_whitespace(c: char) -> (r: bool)
    ensures
        r == is_ws(c),
{
    let u = c as u32;
    (0x09 <= u && u <= 0x0d) || u == 0x20 || u == 0x85 || u == 0xa0 || u == 0x1680 || (0x2000 <= u
        && u <= 0x200a) || u == 0x2028 || u == 0x2029 || u == 0x202f || u == 0x205f || u == 0x3000
}

pub fn is_ascii_digit(c: char) -> (r: bool)
    ensures
        r == is_digit(c),
{
    let u = c as u32;
    0x30 <= u && u <= 0x39
}

pub fn is_ascii_upper(c: char) -> (r: bool)
    ensures
        r == is_upper(c),
{
    let u = c as u32;
    0x41 <= u && u <= 0x5a
}

pub fn is_ascii_alpha(c: char) -> (r: bool)
    ensures
        r == is_alpha(c),
{
    let u = c as u32;
    (0x41 <= u && u <= 0x5a) || (0x61 <= u && u <= 0x7a)
}

pub fn is_ascii_hex(c: char) -> (r: bool)
    ensures
        r == is_hex_digit(c),
{
    let u = c as u32;
    (0x30 <= u && u <= 0x39) || (0x41 <= u && u <= 0x46) || (0x61 <= u && u <= 0x66)
}

/// `s` with its leading whitespace removed (`str::trim_start`).
pub open spec fn trim_start(s: Seq<char>) -> Seq<char>
    decreases s.len(),
{
    if s.len() > 0 && is_ws(s[0]) {
        trim_start(s.drop_first())
    } else {
        s
    }
}

/// `s` with its trailing whitespace removed (`str::trim_end`).
pub open spec fn trim_end(s: Seq<char>) -> Seq<char>
    decreases s.len(),
{
    if s.len() > 0 && is_ws(s.last()) {
        trim_end(s.drop_last())
    } else {
        s
    }
}

/// `s` with whitespace removed at both ends (`str::trim`).
pub open spec fn trim(s: Seq<char>) -> Seq<char> {
    trim_end(trim_start(s))
}

/// A copy of `s[lo..hi]`.
pub fn copy_range(s: &[char], lo: usize, hi: usize) -> (r: Vec<char>)
    requires
        lo <= hi <= s@.len(),
    ensures
        r@ == s@.subrange(lo as int, hi as int),
{
    let mut r: Vec<char> = Vec::new();
    let mut i: usize = lo;
    while i < hi
        invariant
            lo <= i <= hi <= s@.len(),
            r@ == s@.subrange(lo as int, i as int),
        decreases hi - i,
    {
        r.push(s[i]);
        i += 1;
    }
    r
}

/// Appends `s[lo..hi]` to `out`.
pub fn push_range(out: &mut Vec<char>, s: &[char], lo: usize, hi: usize)
    requires
        lo <= hi <= s@.len(),
    ensures
        final(out)@ == old(out)@ + s@.subrange(lo as int, hi as int),
{
    let ghost start = out@;
    let mut i: usize = lo;
    while i < hi
        invariant
            lo <= i <= hi <= s@.len(),
            out@ == start + s@.subrange(lo as int, i as int),
        decreases hi - i,
    {
        out.push(s[i]);
        i += 1;
    }
}

/// The characters of a string slice.
pub fn chars_of(s: &str) -> (r: Vec<char>)
    ensures
        r@ == s@,
{
    let mut r: Vec<char> = Vec::new();
    broadcast use vstd::string::group_string_axioms;
    let mut it = s.chars();
    loop
        invariant
            s@ == r@ + vstd::std_specs::iter::IteratorSpec::remaining(&it),
            vstd::std_specs::iter::IteratorSpec::obeys_prophetic_iter_laws(&it),
            vstd::std_specs::iter::IteratorSpec::decrease(&it) is Some,
        ensures
            r@ == s@,
        decreases vstd::std_specs::iter::IteratorSpec::decrease(&it)->0,
    {
        let ghost before = vstd::std_specs::iter::IteratorSpec::remaining(&it);
        match it.next() {
            Some(c) => {
                r.push(c);
                assert(before == seq![c] + vstd::std_specs::iter::IteratorSpec::remaining(&it));
            },
            None => {
                assert(r@ =~= s@);
                break;
            },
        }
    }
    r
}

/// First index at or after `lo` where `s[lo..hi]` is not whitespace.
pub fn skip_ws(s: &[char], lo: usize, hi: usize) -> (r: usize)
    requires
        lo <= hi <= s@.len(),
    ensures
        lo <= r <= hi,
        s@.subrange(r as int, hi as int) == trim_start(s@.subrange(lo as int, hi as int)),
{
    let mut i: usize = lo;
    while i < hi && is_whitespace(s[i])
        invariant
            lo <= i <= hi <= s@.len(),
            trim_start(s@.subrange(lo as int, hi as int)) == trim_start(
                s@.subrange(i as int, hi as int),
            ),
        decreases hi - i,
    {
        assert(s@.subrange(i as int, hi as int).drop_first() =~= s@.subrange(i + 1, hi as int));
        i += 1;
    }
    i
}

/// End of `s[lo..hi]` once trailing whitespace is removed.
pub fn back_ws(s: &[char], lo: usize, hi: usize) -> (r: usize)
    requires
        lo <= hi <= s@.len(),
    ensures
        lo <= r <= hi,
        s@.subrange(lo as int, r as int) == trim_end(s@.subrange(lo as int, hi as int)),
{
    let mut j: usize = hi;
    while j > lo && is_whitespace(s[j - 1])
        invariant
            lo <= j <= hi <= s@.len(),
            trim_end(s@.subrange(lo as int, hi as int)) == trim_end(
                s@.subrange(lo as int, j as int),
            ),
        decreases j,
    {
        assert(s@.subrange(lo as int, j as int).drop_last() =~= s@.subrange(lo as int, j - 1));
        j -= 1;
    }
    j
}

/// Bounds of `trim(s[lo..hi])` inside `s`.
pub fn trim_range(s: &[char], lo: usize, hi: usize) -> (r: (usize, usize))
    requires
        lo <= hi <= s@.len(),
    ensures
        lo <= r.0 <= r.1 <= hi,
        s@.subrange(r.0 as int, r.1 as int) == trim(s@.subrange(lo as int, hi as int)),
{
    let a = skip_ws(s, lo, hi);
    let b = back_ws(s, a, hi);
    (a, b)
}

/// `trim(s)` as a new vector.
pub fn trimmed(s: &[char]) -> (r: Vec<char>)
    ensures
        r@ == trim(s@),
{
    let (a, b) = trim_range(s, 0, s.len());
    assert(s@.subrange(0, s@.len() as int) =~= s@);
    copy_range(s, a, b)
}

/// Whether two character slices are equal.
pub fn eq(a: &[char], b: &[char]) -> (r: bool)
    ensures
        r == (a@ == b@),
{
    if a.len() != b.len() {
        return false;
    }
    let mut i: usize = 0;
    while i < a.len()
        invariant
            a@.len() == b@.len(),
            i <= a@.len(),
            forall|k: int| 0 <= k < i ==> a@[k] == b@[k],
        decreases a.len() - i,
    {
        if a[i] != b[i] {
            return false;
        }
        i += 1;
    }
    assert(a@ =~= b@);
    true
}

/// Whether `s` equals the string literal (or string) `lit`.
pub fn eq_str(s: &[char], lit: &str) -> (r: bool)
    ensures
        r == (s@ == lit@),
{
    let l = chars_of(lit);
    eq(s, l.as_slice())
}

/// First index at or after `i` holding `c`.
pub open spec fn find_char_from(s: Seq<char>, c: char, i: int) -> Option<int>
    decreases s.len() - i,
{
    if i < 0 || i >= s.len() {
        None
    } else if s[i] == c {
        Some(i)
    } else {
        find_char_from(s, c, i + 1)
    }
}

/// First index of `c` in `s` (`str::find` with a `char`).
pub open spec fn find_char(s: Seq<char>, c: char) -> Option<int> {
    find_char_from(s, c, 0)
}

pub proof fn lemma_find_char_from(s: Seq<char>, c: char, i: int)
    requires
        0 <= i,
    ensures
        find_char_from(s, c, i) matches Some(k) ==> i <= k < s.len() && s[k] == c && forall|j: int|
            i <= j < k ==> s[j] != c,
        find_char_from(s, c, i) is None ==> forall|j: int| i <= j < s.len() ==> s[j] != c,
    decreases s.len() - i,
{
    if i < s.len() && s[i] != c {
        lemma_find_char_from(s, c, i + 1);
    }
}

/// Whether `p` occurs in `s` at index `i`.
pub open spec fn occurs_at(s: Seq<char>, p: Seq<char>, i: int) -> bool {
    0 <= i && i + p.len() <= s.len() && s.subrange(i, i + p.len()) == p
}

/// First index at or after `i` where `p` occurs in `s`.
pub open spec fn find_from(s: Seq<char>, p: Seq<char>, i: int) -> Option<int>
    decreases s.len() + 1 - i,
{
    if i < 0 || i + p.len() > s.len() {
        None
    } else if occurs_at(s, p, i) {
        Some(i)
    } else {
        find_from(s, p, i + 1)
    }
}

/// First index of the pattern `p` in `s` (`str::find` with a `&str`).
pub open spec fn find(s: Seq<char>, p: Seq<char>) -> Option<int> {
    find_from(s, p, 0)
}

pub proof fn lemma_find_from(s: Seq<char>, p: Seq<char>, i: int)
    requires
        0 <= i,
    ensures
        find_from(s, p, i) matches Some(k) ==> i <= k && k + p.len() <= s.len() && occurs_at(
            s,
            p,
            k,
        ) && forall|j: int| i <= j < k ==> !occurs_at(s, p, j),
        find_from(s, p, i) is None ==> forall|j: int| i <= j ==> !occurs_at(s, p, j),
    decreases s.len() + 1 - i,
{
    if i + p.len() <= s.len() && !occurs_at(s, p, i) {
        lemma_find_from(s, p, i + 1);
    }
}

/// Position of `c` in `s[lo..hi]`, as an index into `s`.
pub fn find_char_in(s: &[char], lo: usize, hi: usize, c: char) -> (r: Option<usize>)
    requires
        lo <= hi <= s@.len(),
    ensures
        r matches Some(k) ==> find_char(s@.subrange(lo as int, hi as int), c) == Some(k - lo),
        r is None ==> find_char(s@.subrange(lo as int, hi as int), c) is None,
        r matches Some(k) ==> lo <= k < hi,
{
    let ghost t = s@.subrange(lo as int, hi as int);
    let mut i: usize = lo;
    while i < hi
        invariant
            lo <= i <= hi <= s@.len(),
            t == s@.subrange(lo as int, hi as int),
            find_char(t, c) == find_char_from(t, c, i - lo),
        decreases hi - i,
    {
        if s[i] == c {
            return Some(i);
        }
        i += 1;
    }
    None
}

/// Position of the pattern `p` in `s[lo..hi]`, as an index into `s`.
pub fn find_in(s: &[char], lo: usize, hi: usize, p: &[char]) -> (r: Option<usize>)
    requires
        lo <= hi <= s@.len(),
    ensures
        r matches Some(k) ==> find(s@.subrange(lo as int, hi as int), p@) == Some(k - lo),
        r is None ==> find(s@.subrange(lo as int, hi as int), p@) is None,
        r matches Some(k) ==> lo <= k && k + p@.len() <= hi,
{
    let ghost t = s@.subrange(lo as int, hi as int);
    if p.len() > hi - lo {
        return None;
    }
    let mut i: usize = lo;
    while i <= hi - p.len()
        invariant
            lo <= i <= hi <= s@.len(),
            p@.len() <= hi - lo,
            t == s@.subrange(lo as int, hi as int),
            find(t, p@) == find_from(t, p@, i - lo),
        decreases hi - i,
    {
        let mut j: usize = 0;
        let mut same = true;
        while j < p.len()
            invariant
                lo <= i,
                i + p@.len() <= hi <= s@.len(),
                j <= p@.len(),
                same == (forall|k: int| 0 <= k < j ==> s@[i + k] == p@[k]),
            decreases p@.len() - j,
        {
            if s[i + j] != p[j] {
                same = false;
            }
            j += 1;
        }
        assert(same == occurs_at(t, p@, i - lo)) by {
            if same {
                assert(t.subrange(i - lo, i - lo + p@.len()) =~= p@);
            } else {
                let k = choose|k: int| 0 <= k < p@.len() && s@[i + k] != p@[k];
                assert(t.subrange(i - lo, i - lo + p@.len())[k] == s@[i + k]);
            }
        }
        if same {
            return Some(i);
        }
        i += 1;
    }
    None
}

/// Whether `s` begins with `p`.
pub open spec fn starts_with(s: Seq<char>, p: Seq<char>) -> bool {
    p.len() <= s.len() && s.subrange(0, p.len() as int) == p
}

/// Whether `s` ends with `p`.
pub open spec fn ends_with(s: Seq<char>, p: Seq<char>) -> bool {
    p.len() <= s.len() && s.subrange(s.len() - p.len(), s.len() as int) == p
}

/// Whether `s[lo..hi]` begins with `p`.
pub fn starts_with_in(s: &[char], lo: usize, hi: usize, p: &[char]) -> (r: bool)
    requires
        lo <= hi <= s@.len(),
    ensures
        r == starts_with(s@.subrange(lo as int, hi as int), p@),
{
    if p.len() > hi - lo {
        return false;
    }
    let mut j: usize = 0;
    while j < p.len()
        invariant
            lo + p@.len() <= hi <= s@.len(),
            j <= p@.len(),
            forall|k: int| 0 <= k < j ==> s@[lo + k] == p@[k],
        decreases p@.len() - j,
    {
        if s[lo + j] != p[j] {
            assert(s@.subrange(lo as int, hi as int).subrange(0, p@.len() as int)[j as int] != p@[j as int]);
            return false;
        }
        j += 1;
    }
    assert(s@.subrange(lo as int, hi as int).subrange(0, p@.len() as int) =~= p@);
    true
}

/// Whether `s` ends with `p`.
pub fn ends_with_in(s: &[char], p: &[char]) -> (r: bool)
    ensures
        r == ends_with(s@, p@),
{
    if p.len() > s.len() {
        return false;
    }
    let sl = s.len();
    let off = sl - p.len();
    let mut j: usize = 0;
    while j < p.len()
        invariant
            off + p@.len() == s@.len(),
            sl == s@.len(),
            j <= p@.len(),
            forall|k: int| 0 <= k < j ==> s@[off + k] == p@[k],
        decreases p@.len() - j,
    {
        if s[off + j] != p[j] {
            assert(s@.subrange(off as int, s@.len() as int)[j as int] != p@[j as int]);
            return false;
        }
        j += 1;
    }
    assert(s@.subrange(off as int, s@.len() as int) =~= p@);
    true
}

/// The pieces of `s` between occurrences of `c` (`str::split` with a `char`).
pub open spec fn split_char(s: Seq<char>, c: char) -> Seq<Seq<char>>
    decreases s.len(),
{
    match find_char(s, c) {
        None => seq![s],
        Some(k) => {
            proof {
                lemma_find_char_from(s, c, 0);
            }
            seq![s.subrange(0, k)] + split_char(s.subrange(k + 1, s.len() as int), c)
        },
    }
}

/// `s` split at the first `c` (`str::split_once` with a `char`).
pub open spec fn split_once_char(s: Seq<char>, c: char) -> Option<(Seq<char>, Seq<char>)> {
    match find_char(s, c) {
        None => None,
        Some(k) => Some((s.subrange(0, k), s.subrange(k + 1, s.len() as int))),
    }
}

/// `s` split at the first occurrence of `p` (`str::split_once` with a `&str`).
pub open spec fn split_once(s: Seq<char>, p: Seq<char>) -> Option<(Seq<char>, Seq<char>)> {
    match find(s, p) {
        None => None,
        Some(k) => Some((s.subrange(0, k), s.subrange(k + p.len(), s.len() as int))),
    }
}

/// The pieces of `s[lo..hi]` between occurrences of `c`, as index ranges into `s`.
pub fn split_char_in(s: &[char], lo: usize, hi: usize, c: char) -> (r: Vec<(usize, usize)>)
    requires
        lo <= hi <= s@.len(),
    ensures
        r@.len() == split_char(s@.subrange(lo as int, hi as int), c).len(),
        forall|k: int|
            0 <= k < r@.len() ==> lo <= (#[trigger] r@[k]).0 <= r@[k].1 <= hi && s@.subrange(
                r@[k].0 as int,
                r@[k].1 as int,
            ) == split_char(s@.subrange(lo as int, hi as int), c)[k],
{
    let ghost whole = split_char(s@.subrange(lo as int, hi as int), c);
    let mut r: Vec<(usize, usize)> = Vec::new();
    let mut start: usize = lo;
    loop
        invariant_except_break
            whole == Seq::new(r@.len(), |k: int| s@.subrange(r@[k].0 as int, r@[k].1 as int))
                + split_char(s@.subrange(start as int, hi as int), c),
        invariant
            lo <= start <= hi <= s@.len(),
            forall|k: int| 0 <= k < r@.len() ==> lo <= (#[trigger] r@[k]).0 <= r@[k].1 <= hi,
        ensures
            whole == Seq::new(r@.len(), |k: int| s@.subrange(r@[k].0 as int, r@[k].1 as int)),
            forall|k: int| 0 <= k < r@.len() ==> lo <= (#[trigger] r@[k]).0 <= r@[k].1 <= hi,
        decreases hi - start,
    {
        let ghost rest = s@.subrange(start as int, hi as int);
        let ghost before = Seq::new(
            r@.len(),
            |k: int| s@.subrange(r@[k].0 as int, r@[k].1 as int),
        );
        match find_char_in(s, start, hi, c) {
            None => {
                r.push((start, hi));
                assert(Seq::new(r@.len(), |k: int| s@.subrange(r@[k].0 as int, r@[k].1 as int))
                    =~= before + seq![rest]);
                break;
            },
            Some(k) => {
                proof {
                    lemma_find_char_from(rest, c, 0);
                }
                r.push((start, k));
                assert(rest.subrange(0, k - start) =~= s@.subrange(start as int, k as int));
                assert(rest.subrange(k - start + 1, rest.len() as int) =~= s@.subrange(
                    k + 1,
                    hi as int,
                ));
                assert(Seq::new(r@.len(), |j: int| s@.subrange(r@[j].0 as int, r@[j].1 as int))
                    =~= before + seq![s@.subrange(start as int, k as int)]);
                start = k + 1;
            },
        }
    }
    r
}

pub proof fn lemma_trim_start(s: Seq<char>)
    ensures
        trim_start(s).len() <= s.len(),
        trim_start(s) == s.subrange(s.len() - trim_start(s).len(), s.len() as int),
        trim_start(s).len() > 0 ==> !is_ws(trim_start(s)[0]),
        forall|j: int| 0 <= j < s.len() - trim_start(s).len() ==> is_ws(s[j]),
    decreases s.len(),
{
    if s.len() > 0 && is_ws(s[0]) {
        lemma_trim_start(s.drop_first());
        let t = trim_start(s.drop_first());
        assert(s.drop_first().subrange(s.len() - 1 - t.len(), s.len() - 1) =~= s.subrange(
            s.len() - t.len(),
            s.len() as int,
        ));
        assert forall|j: int| 0 <= j < s.len() - t.len() implies is_ws(s[j]) by {
            if j > 0 {
                assert(s[j] == s.drop_first()[j - 1]);
            }
        }
    } else {
        assert(s.subrange(0, s.len() as int) =~= s);
    }
}

pub proof fn lemma_trim_end(s: Seq<char>)
    ensures
        trim_end(s).len() <= s.len(),
        trim_end(s) == s.subrange(0, trim_end(s).len() as int),
        trim_end(s).len() > 0 ==> !is_ws(trim_end(s).last()),
        forall|j: int| trim_end(s).len() <= j < s.len() ==> is_ws(s[j]),
    decreases s.len(),
{
    if s.len() > 0 && is_ws(s.last()) {
        lemma_trim_end(s.drop_last());
        let t = trim_end(s.drop_last());
        assert(s.drop_last().subrange(0, t.len() as int) =~= s.subrange(0, t.len() as int));
        assert forall|j: int| t.len() <= j < s.len() implies is_ws(s[j]) by {
            if j < s.len() - 1 {
                assert(s[j] == s.drop_last()[j]);
            }
        }
    } else {
        assert(s.subrange(0, s.len() as int) =~= s);
    }
}

/// End of the run of non-whitespace characters of `s` that starts at `i`.
pub open spec fn word_end(s: Seq<char>, i: int) -> int
    decreases s.len() - i,
{
    if i < 0 || i >= s.len() || is_ws(s[i]) {
        i
    } else {
        word_end(s, i + 1)
    }
}

pub proof fn lemma_word_end(s: Seq<char>, i: int)
    requires
        0 <= i <= s.len(),
    ensures
        i <= word_end(s, i) <= s.len(),
        word_end(s, i) < s.len() ==> is_ws(s[word_end(s, i)]),
        forall|j: int| i <= j < word_end(s, i) ==> !is_ws(s[j]),
    decreases s.len() - i,
{
    if i < s.len() && !is_ws(s[i]) {
        lemma_word_end(s, i + 1);
    }
}

/// The whitespace-separated words of `s` (`str::split_whitespace`).
pub open spec fn words(s: Seq<char>) -> Seq<Seq<char>>
    decreases s.len(),
{
    let t = trim_start(s);
    if t.len() == 0 {
        seq![]
    } else {
        let k = word_end(t, 0);
        proof {
            lemma_trim_start(s);
            lemma_word_end(t, 0);
        }
        seq![t.subrange(0, k)] + words(t.subrange(k, t.len() as int))
    }
}

/// The whitespace-separated words of `s[lo..hi]`, as index ranges into `s`.
pub fn words_in(s: &[char], lo: usize, hi: usize) -> (r: Vec<(usize, usize)>)
    requires
        lo <= hi <= s@.len(),
    ensures
        r@.len() == words(s@.subrange(lo as int, hi as int)).len(),
        forall|k: int|
            0 <= k < r@.len() ==> lo <= (#[trigger] r@[k]).0 <= r@[k].1 <= hi && s@.subrange(
                r@[k].0 as int,
                r@[k].1 as int,
            ) == words(s@.subrange(lo as int, hi as int))[k],
{
    let ghost whole = words(s@.subrange(lo as int, hi as int));
    let mut r: Vec<(usize, usize)> = Vec::new();
    let mut i: usize = lo;
    loop
        invariant_except_break
            whole == Seq::new(r@.len(), |k: int| s@.subrange(r@[k].0 as int, r@[k].1 as int))
                + words(s@.subrange(i as int, hi as int)),
        invariant
            lo <= i <= hi <= s@.len(),
            forall|k: int| 0 <= k < r@.len() ==> lo <= (#[trigger] r@[k]).0 <= r@[k].1 <= hi,
        ensures
            whole == Seq::new(r@.len(), |k: int| s@.subrange(r@[k].0 as int, r@[k].1 as int)),
            forall|k: int| 0 <= k < r@.len() ==> lo <= (#[trigger] r@[k]).0 <= r@[k].1 <= hi,
        decreases hi - i,
    {
        let ghost before = Seq::new(
            r@.len(),
            |k: int| s@.subrange(r@[k].0 as int, r@[k].1 as int),
        );
        let a = skip_ws(s, i, hi);
        if a == hi {
            assert(before + words(s@.subrange(i as int, hi as int)) =~= before);
            break;
        }
        let ghost t = s@.subrange(a as int, hi as int);
        let mut j: usize = a;
        while j < hi && !is_whitespace(s[j])
            invariant
                a <= j <= hi <= s@.len(),
                t == s@.subrange(a as int, hi as int),
                word_end(t, 0) == word_end(t, j - a),
            decreases hi - j,
        {
            j += 1;
        }
        proof {
            lemma_word_end(t, 0);
        }
        r.push((a, j));
        assert(t.subrange(0, j - a) =~= s@.subrange(a as int, j as int));
        assert(t.subrange(j - a, t.len() as int) =~= s@.subrange(j as int, hi as int));
        assert(Seq::new(r@.len(), |k: int| s@.subrange(r@[k].0 as int, r@[k].1 as int))
            =~= before + seq![s@.subrange(a as int, j as int)]);
        i = j;
    }
    r
}

/// First line break at or after `i` (or the end of `t`).
pub open spec fn nl_from(t: Seq<char>, i: int) -> int
    decreases t.len() - i,
{
    if i < 0 || i >= t.len() || t[i] == '\n' {
        i
    } else {
        nl_from(t, i + 1)
    }
}

pub proof fn lemma_nl_from(t: Seq<char>, i: int)
    requires
        0 <= i <= t.len(),
    ensures
        i <= nl_from(t, i) <= t.len(),
        nl_from(t, i) < t.len() ==> t[nl_from(t, i)] == '\n',
        forall|j: int| i <= j < nl_from(t, i) ==> t[j] != '\n',
    decreases t.len() - i,
{
    if i < t.len() && t[i] != '\n' {
        lemma_nl_from(t, i + 1);
    }
}

/// A line that ended with a line feed loses one trailing carriage return.
pub open spec fn strip_cr(l: Seq<char>) -> Seq<char> {
    if l.len() > 0 && l.last() == '\r' {
        l.drop_last()
    } else {
        l
    }
}

/// The lines of `t` from index `i` on.
pub open spec fn lines_from(t: Seq<char>, i: int) -> Seq<Seq<char>>
    decreases t.len() + 1 - i,
{
    if i < 0 || i >= t.len() {
        seq![]
    } else {
        let j = nl_from(t, i);
        proof {
            lemma_nl_from(t, i);
        }
        let raw = t.subrange(i, j);
        let line = if j < t.len() {
            strip_cr(raw)
        } else {
            raw
        };
        seq![line] + lines_from(t, j + 1)
    }
}

/// The lines of `t` (`str::lines`): split at `\n`, each line that a `\n`
/// ended loses a trailing `\r`, and a final line break adds no empty line.
pub open spec fn lines(t: Seq<char>) -> Seq<Seq<char>> {
    lines_from(t, 0)
}

/// The lines of `t`.
pub fn split_lines(t: &[char]) -> (r: Vec<Vec<char>>)
    ensures
        r.deep_view() == lines(t@),
{
    let mut r: Vec<Vec<char>> = Vec::new();
    let mut i: usize = 0;
    while i < t.len()
        invariant
            i <= t@.len(),
            lines(t@) == r.deep_view() + lines_from(t@, i as int),
        decreases t@.len() - i,
    {
        let ghost before = r.deep_view();
        let j = match find_char_in(t, i, t.len(), '\n') {
            Some(j) => j,
            None => t.len(),
        };
        proof {
            lemma_nl_from(t@, i as int);
            let s = t@.subrange(i as int, t@.len() as int);
            lemma_find_char_from(s, '\n', 0);
            assert(nl_from(t@, i as int) == j) by {
                if j < t@.len() {
                    assert(s[j - i] == t@[j as int]);
                    assert forall|k: int| i <= k < j implies t@[k] != '\n' by {
                        assert(s[k - i] == t@[k]);
                    }
                } else {
                    assert forall|k: int| i <= k < t@.len() implies t@[k] != '\n' by {
                        assert(s[k - i] == t@[k]);
                    }
                }
            }
        }
        let mut e = j;
        if j < t.len() && j > i && t[j - 1] == '\r' {
            e = j - 1;
        }
        let line = copy_range(t, i, e);
        assert(line.deep_view() =~= line@);
        r.push(line);
        assert(r.deep_view() =~~= before + seq![line@]);
        if e < j {
            assert(t@.subrange(i as int, j as int).drop_last() =~= t@.subrange(i as int, e as int));
        }
        proof {
            let raw = t@.subrange(i as int, j as int);
            let sl = if j < t@.len() { strip_cr(raw) } else { raw };
            assert(sl == line@);
            assert(lines_from(t@, i as int) == seq![line@] + lines_from(t@, j + 1));
            assert(lines_from(t@, j + 1) == lines_from(t@, if j < t@.len() { j + 1 } else { t@.len() as int }));
            assert(lines(t@) == before + (seq![line@] + lines_from(t@, j + 1)));
            assert(before + (seq![line@] + lines_from(t@, j + 1)) =~= (before + seq![line@]) + lines_from(t@, j + 1));
        }
        if j < t.len() {
            i = j + 1;
        } else {
            i = t.len();
        }
    }
    r
}

/// The value of a string of ASCII decimal digits.
pub open spec fn dec_val(s: Seq<char>) -> nat
    decreases s.len(),
{
    if s.len() == 0 {
        0
    } else {
        dec_val(s.drop_last()) * 10 + digit_val(s.last())
    }
}

pub open spec fn all_digits(s: Seq<char>) -> bool {
    forall|i: int| 0 <= i < s.len() ==> is_digit(#[trigger] s[i])
}

/// `str::parse` for an unsigned integer type whose largest value is `max`:
/// an optional `+`, then at least one ASCII digit, and no overflow.
pub open spec fn parse_uint(s: Seq<char>, max: nat) -> Option<nat> {
    let d = if s.len() > 0 && s[0] == '+' {
        s.drop_first()
    } else {
        s
    };
    if d.len() > 0 && all_digits(d) && dec_val(d) <= max {
        Some(dec_val(d))
    } else {
        None
    }
}

/// Parses `s` as an unsigned number of at most `max`, as `str::parse` does.
pub fn parse_uint_in(s: &[char], max: u64) -> (r: Option<u64>)
    ensures
        match r {
            Some(v) => parse_uint(s@, max as nat) == Some(v as nat),
            None => parse_uint(s@, max as nat) is None,
        },
{
    let start: usize = if s.len() > 0 && s[0] == '+' {
        1
    } else {
        0
    };
    let ghost d = s@.subrange(start as int, s@.len() as int);
    assert(start == 1 ==> s@.drop_first() =~= d);
    assert(start == 0 ==> s@ =~= d);
    if start == s.len() {
        return None;
    }
    let mut v: u128 = 0;
    let mut over = false;
    let mut i: usize = start;
    while i < s.len()
        invariant
            start <= i <= s@.len(),
            d == s@.subrange(start as int, s@.len() as int),
            d == (if s@.len() > 0 && s@[0] == '+' {
                s@.drop_first()
            } else {
                s@
            }),
            forall|k: int| 0 <= k < i - start ==> is_digit(#[trigger] d[k]),
            !over ==> v == dec_val(d.take(i - start)) && v <= max,
            over ==> dec_val(d.take(i - start)) > max,
        decreases s@.len() - i,
    {
        let c = s[i];
        if !is_ascii_digit(c) {
            assert(!is_digit(d[i - start]));
            assert(!all_digits(d));
            return None;
        }
        assert(d.take(i - start + 1).drop_last() =~= d.take(i - start));
        assert(d.take(i - start + 1).last() == c);
        if !over {
            let x = v * 10 + ((c as u32) - 0x30) as u128;
            if x > max as u128 {
                over = true;
            } else {
                v = x;
            }
        }
        i += 1;
    }
    assert(d.take(d.len() as int) =~= d);
    if over {
        None
    } else {
        Some(v as u64)
    }
}

/// The character of a decimal digit.
pub open spec fn digit_char(d: nat) -> char {
    (d + 0x30) as char
}

/// Decimal numeral of `n`, without leading zeros.
pub open spec fn dec(n: nat) -> Seq<char>
    decreases n,
{
    if n < 10 {
        seq![digit_char(n)]
    } else {
        dec(n / 10).push(digit_char(n % 10))
    }
}

fn digit_of(d: u64) -> (c: char)
    requires
        d < 10,
    ensures
        c == digit_char(d as nat),
{
    let b: u8 = (d as u8) + 48;
    b as char
}

/// Appends the decimal numeral of `n`.
pub fn push_dec(out: &mut Vec<char>, n: u64)
    ensures
        final(out)@ == old(out)@ + dec(n as nat),
    decreases n,
{
    if n >= 10 {
        push_dec(out, n / 10);
    }
    out.push(digit_of(n % 10));
    proof {
        if n >= 10 {
            assert(old(out)@ + dec(n as nat) =~= old(out)@ + dec((n / 10) as nat) + seq![
                digit_char((n % 10) as nat),
            ]);
        } else {
            assert(old(out)@ + dec(n as nat) =~= old(out)@.push(digit_char(n as nat)));
        }
    }
}

/// Decimal numeral of a signed number: a `-` before negative ones.
pub open spec fn dec_int(n: int) -> Seq<char> {
    if n < 0 {
        seq!['-'] + dec((-n) as nat)
    } else {
        dec(n as nat)
    }
}

/// Appends the decimal numeral of a signed number.
pub fn push_dec_i64(out: &mut Vec<char>, n: i64)
    ensures
        final(out)@ == old(out)@ + dec_int(n as int),
{
    if n < 0 {
        out.push('-');
        let m: u64 = if n == i64::MIN {
            9223372036854775808u64
        } else {
            (-n) as u64
        };
        push_dec(out, m);
        assert(old(out)@ + dec_int(n as int) =~= old(out)@.push('-') + dec(m as nat));
    } else {
        push_dec(out, n as u64);
    }
}

/// Lower-case hexadecimal digit of `d` (below 16).
pub open spec fn hex_char(d: nat) -> char {
    if d < 10 {
        (d + 0x30) as char
    } else {
        (d - 10 + 0x61) as char
    }
}

/// Lower-case hexadecimal text of a byte string, two digits per byte.
pub open spec fn hex_lower(b: Seq<u8>) -> Seq<char>
    decreases b.len(),
{
    if b.len() == 0 {
        seq![]
    } else {
        hex_lower(b.drop_last()) + seq![
            hex_char((b.last() / 16) as nat),
            hex_char((b.last() % 16) as nat),
        ]
    }
}

/// Hexadecimal text has two digits per byte, each a hexadecimal digit.
pub proof fn lemma_hex_lower(b: Seq<u8>)
    ensures
        hex_lower(b).len() == 2 * b.len(),
        forall|i: int| 0 <= i < hex_lower(b).len() ==> is_hex_digit(#[trigger] hex_lower(b)[i]),
    decreases b.len(),
{
    if b.len() > 0 {
        lemma_hex_lower(b.drop_last());
        let hi = (b.last() / 16) as nat;
        let lo = (b.last() % 16) as nat;
        assert(is_hex_digit(hex_char(hi)));
        assert(is_hex_digit(hex_char(lo)));
        let prev = hex_lower(b.drop_last());
        assert forall|i: int| 0 <= i < hex_lower(b).len() implies is_hex_digit(
            #[trigger] hex_lower(b)[i],
        ) by {
            if i < prev.len() {
                assert(hex_lower(b)[i] == prev[i]);
            }
        }
    }
}

fn hex_digit(d: u8) -> (c: char)
    requires
        d < 16,
    ensures
        c == hex_char(d as nat),
{
    if d < 10 {
        (d + 48) as char
    } else {
        (d - 10 + 97) as char
    }
}

/// The lower-case hexadecimal text of `b`.
pub fn hex_of(b: &[u8]) -> (r: Vec<char>)
    ensures
        r@ == hex_lower(b@),
        r@.len() == 2 * b@.len(),
{
    let mut r: Vec<char> = Vec::new();
    let mut i: usize = 0;
    while i < b.len()
        invariant
            i <= b@.len(),
            r@ == hex_lower(b@.take(i as int)),
            r@.len() == 2 * i,
        decreases b@.len() - i,
    {
        assert(b@.take(i + 1).drop_last() =~= b@.take(i as int));
        r.push(hex_digit(b[i] / 16));
        r.push(hex_digit(b[i] % 16));
        i += 1;
    }
    assert(b@.take(b@.len() as int) =~= b@);
    r
}

/// ASCII lower-casing of one character (`char::to_ascii_lowercase`).
pub open spec fn lower(c: char) -> char {
    if is_upper(c) {
        ((c as u32) + 32) as char
    } else {
        c
    }
}

/// ASCII lower-casing (`str::to_ascii_lowercase`).
pub open spec fn to_lower(s: Seq<char>) -> Seq<char> {
    s.map_values(|c: char| lower(c))
}

/// `s` in ASCII lower case.
pub fn lowercased(s: &[char]) -> (r: Vec<char>)
    ensures
        r@ == to_lower(s@),
{
    let mut r: Vec<char> = Vec::new();
    let mut i: usize = 0;
    while i < s.len()
        invariant
            i <= s@.len(),
            r@ == to_lower(s@.take(i as int)),
        decreases s@.len() - i,
    {
        let c = s[i];
        let l = if is_ascii_upper(c) {
            let u: u32 = c as u32;
            let b: u8 = u as u8;
            (b + 32) as char
        } else {
            c
        };
        r.push(l);
        assert(to_lower(s@.take(i + 1)) =~= to_lower(s@.take(i as int)).push(lower(c)));
        i += 1;
    }
    assert(s@.take(s@.len() as int) =~= s@);
    r
}

/// Collects the characters into a `String` (std's `FromIterator<char>` for
/// `String`, through `Iterator::collect`). Trusted: the string holds exactly
/// these characters, in order.
#[verifier::external_body]
pub(crate) fn string_of(s: &[char]) -> (r: String)
    ensures
        r@ == s@,
{
    s.iter().collect()
}

/// An owned copy of a string slice.
pub fn string_of_str(s: &str) -> (r: String)
    ensures
        r@ == s@,
{
    s.to_owned()
}

/// Appends the characters of a string slice.
pub fn push_str(out: &mut Vec<char>, s: &str)
    ensures
        final(out)@ == old(out)@ + s@,
{
    let c = chars_of(s);
    push_range(out, c.as_slice(), 0, c.len());
    assert(c@.subrange(0, c@.len() as int) =~= c@);
}

/// Last index before `i` holding `c`.
pub open spec fn rfind_char_before(s: Seq<char>, c: char, i: int) -> Option<int>
    decreases i,
{
    if i <= 0 || i > s.len() {
        None
    } else if s[i - 1] == c {
        Some(i - 1)
    } else {
        rfind_char_before(s, c, i - 1)
    }
}

pub proof fn lemma_rfind_char_before(s: Seq<char>, c: char, i: int)
    requires
        0 <= i <= s.len(),
    ensures
        match rfind_char_before(s, c, i) {
            Some(k) => 0 <= k < i && s[k] == c && forall|j: int| k < j < i ==> s[j] != c,
            None => forall|j: int| 0 <= j < i ==> s[j] != c,
        },
    decreases i,
{
    if i > 0 && s[i - 1] != c {
        lemma_rfind_char_before(s, c, i - 1);
    }
}

/// What follows the last `/` of `t`, or all of `t` (`rsplit('/').next()`).
pub open spec fn base_name(t: Seq<char>) -> Seq<char> {
    match rfind_char_before(t, '/', t.len() as int) {
        Some(k) => t.subrange(k + 1, t.len() as int),
        None => t,
    }
}

/// The part of `t` after its last `/`.
pub fn base_name_of(t: &[char]) -> (r: Vec<char>)
    ensures
        r@ == base_name(t@),
{
    let mut i: usize = t.len();
    while i > 0 && t[i - 1] != '/'
        invariant
            i <= t@.len(),
            rfind_char_before(t@, '/', t@.len() as int) == rfind_char_before(t@, '/', i as int),
        decreases i,
    {
        i -= 1;
    }
    if i == 0 {
        assert(rfind_char_before(t@, '/', 0) is None);
        let r = copy_range(t, 0, t.len());
        assert(t@.subrange(0, t@.len() as int) =~= t@);
        r
    } else {
        copy_range(t, i, t.len())
    }
}

/// Lexicographic order of character sequences by code point, which is the
/// order of their UTF-8 bytes (the order of `str` and `String`).
pub open spec fn lex_lt(a: Seq<char>, b: Seq<char>) -> bool
    decreases a.len(),
{
    if a.len() == 0 {
        b.len() > 0
    } else if b.len() == 0 {
        false
    } else if (a[0] as int) < (b[0] as int) {
        true
    } else if a[0] == b[0] {
        lex_lt(a.drop_first(), b.drop_first())
    } else {
        false
    }
}

pub proof fn lemma_lex_irrefl(a: Seq<char>)
    ensures
        !lex_lt(a, a),
    decreases a.len(),
{
    if a.len() > 0 {
        lemma_lex_irrefl(a.drop_first());
    }
}

pub proof fn lemma_lex_trans(a: Seq<char>, b: Seq<char>, c: Seq<char>)
    requires
        lex_lt(a, b),
        lex_lt(b, c),
    ensures
        lex_lt(a, c),
    decreases a.len(),
{
    if a.len() > 0 && b.len() > 0 && c.len() > 0 && a[0] == b[0] && b[0] == c[0] {
        lemma_lex_trans(a.drop_first(), b.drop_first(), c.drop_first());
    }
}

pub proof fn lemma_lex_total(a: Seq<char>, b: Seq<char>)
    ensures
        a != b ==> lex_lt(a, b) || lex_lt(b, a),
        lex_lt(a, b) ==> !lex_lt(b, a) && a != b,
    decreases a.len(),
{
    if a.len() > 0 && b.len() > 0 && a[0] == b[0] {
        lemma_lex_total(a.drop_first(), b.drop_first());
        if a.drop_first() == b.drop_first() {
            assert(a =~= seq![a[0]] + a.drop_first());
            assert(b =~= seq![b[0]] + b.drop_first());
        }
    }
    if a.len() == 0 && b.len() == 0 {
        assert(a =~= b);
    }
    if a.len() > 0 && b.len() > 0 && a[0] != b[0] {
        assert((a[0] as int) != (b[0] as int));
    }
    if lex_lt(a, b) && a == b {
        lemma_lex_irrefl(a);
    }
}

/// Whether `a` comes before `b` in code point order.
pub fn lex_less(a: &[char], b: &[char]) -> (r: bool)
    ensures
        r == lex_lt(a@, b@),
{
    let mut i: usize = 0;
    assert(a@.subrange(0, a@.len() as int) =~= a@);
    assert(b@.subrange(0, b@.len() as int) =~= b@);
    while i < a.len() && i < b.len() && a[i] == b[i]
        invariant
            i <= a@.len(),
            i <= b@.len(),
            lex_lt(a@, b@) == lex_lt(a@.subrange(i as int, a@.len() as int), b@.subrange(i as int, b@.len() as int)),
        decreases a@.len() - i,
    {
        assert(a@.subrange(i as int, a@.len() as int)[0] == a@[i as int]);
        assert(b@.subrange(i as int, b@.len() as int)[0] == b@[i as int]);
        assert(a@.subrange(i as int, a@.len() as int).drop_first() =~= a@.subrange(i + 1, a@.len() as int));
        assert(b@.subrange(i as int, b@.len() as int).drop_first() =~= b@.subrange(i + 1, b@.len() as int));
        i += 1;
    }
    if i == a.len() {
        i < b.len()
    } else if i == b.len() {
        false
    } else {
        a[i] < b[i]
    }
}

/// Strictly increasing in code point order: sorted with no repeats.
pub open spec fn strictly_sorted(s: Seq<Seq<char>>) -> bool {
    forall|i: int, j: int| 0 <= i < j < s.len() ==> lex_lt(#[trigger] s[i], #[trigger] s[j])
}

fn merge_unique(a: Vec<Vec<char>>, b: Vec<Vec<char>>) -> (r: Vec<Vec<char>>)
    requires
        strictly_sorted(a.deep_view()),
        strictly_sorted(b.deep_view()),
    ensures
        strictly_sorted(r.deep_view()),
        r.deep_view().to_set() == a.deep_view().to_set() + b.deep_view().to_set(),
{
    let ghost av = a.deep_view();
    let ghost bv = b.deep_view();
    let mut r: Vec<Vec<char>> = Vec::new();
    let mut i: usize = 0;
    let mut j: usize = 0;
    while i < a.len() || j < b.len()
        invariant
            i <= a@.len(),
            j <= b@.len(),
            av == a.deep_view(),
            bv == b.deep_view(),
            strictly_sorted(av),
            strictly_sorted(bv),
            strictly_sorted(r.deep_view()),
            r.deep_view().to_set() == av.take(i as int).to_set() + bv.take(j as int).to_set(),
            forall|k: int| 0 <= k < r@.len() && i < av.len() ==> lex_lt(#[trigger] r.deep_view()[k], av[i as int]),
            forall|k: int| 0 <= k < r@.len() && j < bv.len() ==> lex_lt(#[trigger] r.deep_view()[k], bv[j as int]),
        decreases a@.len() + b@.len() - i - j,
    {
        let ghost rv = r.deep_view();
        if i < a.len() {
            assert(a[i as int].deep_view() =~= a[i as int]@);
        }
        if j < b.len() {
            assert(b[j as int].deep_view() =~= b[j as int]@);
        }
        let take_a: bool;
        let take_b: bool;
        if i < a.len() && j < b.len() {
            let x = a[i].as_slice();
            let y = b[j].as_slice();
            if lex_less(x, y) {
                take_a = true;
                take_b = false;
            } else if lex_less(y, x) {
                take_a = false;
                take_b = true;
            } else {
                proof {
                    lemma_lex_total(x@, y@);
                }
                take_a = true;
                take_b = true;
            }
        } else if i < a.len() {
            take_a = true;
            take_b = false;
        } else {
            take_a = false;
            take_b = true;
        }
        assert(take_a && !take_b ==> j >= bv.len() || lex_lt(av[i as int], bv[j as int]));
        assert(!take_a && take_b ==> i >= av.len() || lex_lt(bv[j as int], av[i as int]));
        assert(take_a && take_b ==> av[i as int] == bv[j as int]);
        let item = if take_a {
            a[i].clone()
        } else {
            b[j].clone()
        };
        let ghost x = item@;
        proof {
            assert(take_a ==> x == av[i as int]);
            assert(!take_a ==> x == bv[j as int]);
            assert(take_a && take_b ==> x == bv[j as int]);
            // the new item follows everything placed before it
            assert forall|k: int| 0 <= k < rv.len() implies lex_lt(rv[k], x) by {}
        }
        r.push(item);
        assert(item.deep_view() =~= item@);
        assert(r.deep_view() =~= rv.push(x));
        proof {
            let nr = rv.push(x);
            assert(strictly_sorted(nr)) by {
                assert forall|p: int, q: int| 0 <= p < q < nr.len() implies lex_lt(#[trigger] nr[p], #[trigger] nr[q]) by {
                    if q == rv.len() {
                        assert(nr[p] == rv[p]);
                    } else {
                        assert(nr[p] == rv[p]);
                        assert(nr[q] == rv[q]);
                    }
                }
            }
            let ni: int = if take_a { i + 1 } else { i as int };
            let nj: int = if take_b { j + 1 } else { j as int };
            assert(av.take(ni).to_set() + bv.take(nj).to_set() =~= rv.to_set().insert(x)) by {
                if take_a {
                    assert(av.take(ni) =~= av.take(i as int).push(av[i as int]));
                    av.take(i as int).lemma_push_to_set_commute(av[i as int]);
                } else {
                    assert(av.take(ni) =~= av.take(i as int));
                }
                if take_b {
                    assert(bv.take(nj) =~= bv.take(j as int).push(bv[j as int]));
                    bv.take(j as int).lemma_push_to_set_commute(bv[j as int]);
                } else {
                    assert(bv.take(nj) =~= bv.take(j as int));
                }
            }
            assert(nr.to_set() =~= rv.to_set().insert(x)) by {
                rv.lemma_push_to_set_commute(x);
            }
            assert forall|k: int| 0 <= k < nr.len() && ni < av.len() implies lex_lt(#[trigger] nr[k], av[ni]) by {
                if take_a {
                    lemma_lex_total(av[i as int], av[ni]);
                    if k < rv.len() {
                        assert(nr[k] == rv[k]);
                        lemma_lex_trans(rv[k], av[i as int], av[ni]);
                    }
                } else {
                    if k < rv.len() {
                        assert(nr[k] == rv[k]);
                    } else {
                        // x is b[j], smaller than a[i]
                        lemma_lex_total(av[i as int], bv[j as int]);
                    }
                }
            }
            assert forall|k: int| 0 <= k < nr.len() && nj < bv.len() implies lex_lt(#[trigger] nr[k], bv[nj]) by {
                if take_b {
                    if k < rv.len() {
                        assert(nr[k] == rv[k]);
                        lemma_lex_trans(rv[k], bv[j as int], bv[nj]);
                    }
                } else {
                    if k < rv.len() {
                        assert(nr[k] == rv[k]);
                    }
                }
            }
        }
        if take_a {
            i += 1;
        }
        if take_b {
            j += 1;
        }
    }
    assert(av.take(av.len() as int) =~= av);
    assert(bv.take(bv.len() as int) =~= bv);
    r
}

/// The distinct character sequences of `v[lo..hi]`, in code point order.
fn sort_range(v: &Vec<Vec<char>>, lo: usize, hi: usize) -> (r: Vec<Vec<char>>)
    requires
        lo <= hi <= v@.len(),
    ensures
        strictly_sorted(r.deep_view()),
        r.deep_view().to_set() == v.deep_view().subrange(lo as int, hi as int).to_set(),
    decreases hi - lo,
{
    if hi - lo == 0 {
        let r: Vec<Vec<char>> = Vec::new();
        assert(r.deep_view() =~= seq![]);
        assert(v.deep_view().subrange(lo as int, hi as int) =~= seq![]);
        return r;
    }
    if hi - lo == 1 {
        let mut r: Vec<Vec<char>> = Vec::new();
        r.push(v[lo].clone());
        assert(r.deep_view() =~= v.deep_view().subrange(lo as int, hi as int));
        return r;
    }
    let mid = lo + (hi - lo) / 2;
    let a = sort_range(v, lo, mid);
    let b = sort_range(v, mid, hi);
    let r = merge_unique(a, b);
    proof {
        let w = v.deep_view();
        assert(w.subrange(lo as int, hi as int) =~= w.subrange(lo as int, mid as int) + w.subrange(mid as int, hi as int));
        vstd::seq_lib::seq_to_set_distributes_over_add(w.subrange(lo as int, mid as int), w.subrange(mid as int, hi as int));
    }
    r
}

/// The distinct elements of `v` in code point order (`sort` then `dedup`).
pub fn sort_unique(v: &Vec<Vec<char>>) -> (r: Vec<Vec<char>>)
    ensures
        strictly_sorted(r.deep_view()),
        r.deep_view().to_set() == v.deep_view().to_set(),
{
    let r = sort_range(v, 0, v.len());
    assert(v.deep_view().subrange(0, v@.len() as int) =~= v.deep_view());
    r
}

/// In code point order, repeats allowed.
pub open spec fn sorted_seqs(s: Seq<Seq<char>>) -> bool {
    forall|i: int, j: int| 0 <= i < j < s.len() ==> !lex_lt(#[trigger] s[j], #[trigger] s[i])
}

/// The strings in code point order (`sort` of strings); equal strings keep
/// their order.
pub fn sort_strings(v: Vec<String>) -> (r: Vec<String>)
    ensures
        sorted_seqs(r.deep_view()),
        r.deep_view().to_multiset() == v.deep_view().to_multiset(),
{
    let mut r: Vec<String> = Vec::new();
    let mut i: usize = 0;
    proof {
        assert(r.deep_view() =~= Seq::<Seq<char>>::empty());
        assert(v.deep_view().take(0) =~= Seq::<Seq<char>>::empty());
    }
    while i < v.len()
        invariant
            i <= v@.len(),
            sorted_seqs(r.deep_view()),
            r.deep_view().to_multiset() == v.deep_view().take(i as int).to_multiset(),
        decreases v@.len() - i,
    {
        let x = v[i].clone();
        assert(x@ == v.deep_view()[i as int]);
        let key = chars_of(x.as_str());
        let mut p: usize = 0;
        while p < r.len() && !lex_less(key.as_slice(), chars_of(r[p].as_str()).as_slice())
            invariant
                p <= r@.len(),
                key@ == x@,
                forall|k: int| 0 <= k < p ==> !lex_lt(x@, #[trigger] r.deep_view()[k]),
            decreases r@.len() - p,
        {
            assert(r.deep_view()[p as int] == r@[p as int]@);
            p += 1;
        }
        let ghost r0 = r.deep_view();
        proof {
            if p < r@.len() {
                assert(r0[p as int] == r@[p as int]@);
            }
            assert forall|k: int| p <= k < r0.len() implies !lex_lt(#[trigger] r0[k], x@) by {
                lemma_lex_total(x@, r0[p as int]);
                if lex_lt(r0[k], x@) {
                    if k == p {
                        lemma_lex_total(r0[k], x@);
                    } else {
                        lemma_lex_trans(r0[k], x@, r0[p as int]);
                        assert(!lex_lt(r0[k], r0[p as int]));
                    }
                }
            }
        }
        r.insert(p, x);
        proof {
            let r1 = r.deep_view();
            assert(r1 =~= r0.insert(p as int, v.deep_view()[i as int]));
            assert forall|a: int, b: int| 0 <= a < b < r1.len() implies !lex_lt(#[trigger] r1[b], #[trigger] r1[a]) by {
                if a < p && b < p {
                    assert(r1[a] == r0[a] && r1[b] == r0[b]);
                } else if a < p && b == p {
                    assert(r1[a] == r0[a]);
                    lemma_lex_total(r0[a], x@);
                } else if a < p && b > p {
                    assert(r1[a] == r0[a] && r1[b] == r0[b - 1]);
                } else if a == p {
                    assert(r1[b] == r0[b - 1]);
                } else {
                    assert(r1[a] == r0[a - 1] && r1[b] == r0[b - 1]);
                }
            }
            vstd::seq_lib::to_multiset_insert(r0, p as int, v.deep_view()[i as int]);
            let t = v.deep_view().take(i + 1);
            assert(t =~= v.deep_view().take(i as int).push(v.deep_view()[i as int]));
            vstd::seq_lib::to_multiset_build(v.deep_view().take(i as int), v.deep_view()[i as int]);
        }
        i += 1;
    }
    assert(v.deep_view().take(v@.len() as int) =~= v.deep_view());
    r
}

} // verus!
