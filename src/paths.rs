//! Path strings: joining, scope tests, relative display and collision-free names.
//!
//! Paths are `/`-separated strings. Those compared for scope are canonical: absolute,
//! with no `.` or `..` component, no repeated separator and no trailing one.
use vstd::prelude::*;
use crate::text::{has_prefix, push_char, push_decimal, decimal, starts_with};

verus! {

/// Index of the last `c` in `s`, or -1 when there is none.
pub open spec fn last_index(s: Seq<char>, c: char) -> int
    decreases s.len(),
{
    if s.len() == 0 {
        -1
    } else if s.last() == c {
        s.len() - 1
    } else {
        last_index(s.drop_last(), c)
    }
}

proof fn lemma_last_index(s: Seq<char>, c: char, i: int)
    requires
        -1 <= i < s.len(),
        forall|j: int| i < j < s.len() ==> s[j] != c,
        i == -1 || s[i] == c,
    ensures
        last_index(s, c) == i,
    decreases s.len(),
{
    if s.len() > 0 && i < s.len() - 1 {
        lemma_last_index(s.drop_last(), c, i);
    }
}

/// One past the index of the last `c` in `s`; 0 when there is none.
fn find_last(s: &str, c: char) -> (r: usize)
    ensures
        r == last_index(s@, c) + 1,
        r <= s@.len(),
{
    let n = s.unicode_len();
    let mut i: usize = n;
    while i > 0 && s.get_char(i - 1) != c
        invariant
            n == s@.len(),
            i <= n,
            forall|j: int| i <= j < n ==> s@[j] != c,
        decreases i,
    {
        i = i - 1;
    }
    proof {
        lemma_last_index(s@, c, i - 1);
    }
    i
}

/// `p` interpreted relative to `dir`: an absolute `p` stands for itself; otherwise
/// the two are put together with one separator between them.
pub open spec fn joined(dir: Seq<char>, p: Seq<char>) -> Seq<char> {
    if p.len() > 0 && p[0] == '/' {
        p
    } else if dir.len() == 0 || dir.last() == '/' {
        dir + p
    } else {
        dir + seq!['/'] + p
    }
}

/// `p` relative to `dir` (see `joined`).
pub fn join_path(dir: &str, p: &str) -> (r: String)
    ensures
        r@ == joined(dir@, p@),
{
    if p.unicode_len() > 0 && p.get_char(0) == '/' {
        return String::from_str(p);
    }
    let n = dir.unicode_len();
    let mut r = String::from_str(dir);
    if n > 0 && dir.get_char(n - 1) != '/' {
        push_char(&mut r, '/');
    }
    r.append(p);
    assert(r@ =~= joined(dir@, p@));
    r
}

/// The canonical path `c` lies inside the canonical directory `root` (component-wise
/// prefix: `/a/bc` is not inside `/a/b`).
pub open spec fn within(c: Seq<char>, root: Seq<char>) -> bool {
    ||| root.len() == 0
    ||| c == root
    ||| (root.last() == '/' && has_prefix(c, root))
    ||| has_prefix(c, root.push('/'))
}

/// Whether `c` lies inside `root` (see `within`).
pub fn is_within(c: &str, root: &str) -> (r: bool)
    ensures
        r == within(c@, root@),
{
    let n = root.unicode_len();
    if n == 0 {
        return true;
    }
    if starts_with(c, root) {
        let m = c.unicode_len();
        if m == n {
            assert(c@ =~= root@);
            return true;
        }
        if root.get_char(n - 1) == '/' {
            return true;
        }
        let next = c.get_char(n);
        assert(has_prefix(c@, root@.push('/')) == (next == '/')) by {
            if next == '/' {
                assert(c@.subrange(0, n + 1) =~= root@.push('/'));
            }
            if has_prefix(c@, root@.push('/')) {
                assert(c@.subrange(0, n + 1)[n as int] == '/');
            }
        }
        assert(c@ != root@);
        return next == '/';
    }
    assert(!has_prefix(c@, root@.push('/'))) by {
        if has_prefix(c@, root@.push('/')) {
            assert(c@.subrange(0, n as int) =~= root@);
        }
    }
    assert(c@ != root@) by {
        if c@ == root@ {
            assert(c@.subrange(0, n as int) =~= root@);
        }
    }
    false
}

/// `p` relative to `base` when `p` lies inside `base`; otherwise `p` itself.
pub open spec fn relative_to(p: Seq<char>, base: Seq<char>) -> Seq<char> {
    if base.len() == 0 {
        p
    } else if p == base {
        Seq::empty()
    } else if base.last() == '/' && has_prefix(p, base) {
        p.skip(base.len() as int)
    } else if has_prefix(p, base.push('/')) {
        p.skip(base.len() + 1int)
    } else {
        p
    }
}

/// `s` with every backslash replaced by a forward slash.
pub open spec fn forward_slashes(s: Seq<char>) -> Seq<char> {
    s.map_values(|c: char| if c == '\\' { '/' } else { c })
}

/// Renders `path` relative to `base_dir` with forward slashes, or the whole of
/// `path` (with forward slashes) when it does not lie inside `base_dir`.
pub fn display_relative_path(path: &str, base_dir: &str) -> (r: String)
    ensures
        r@ == forward_slashes(relative_to(path@, base_dir@)),
{
    let n = base_dir.unicode_len();
    let m = path.unicode_len();
    let mut start: usize = 0;
    if n > 0 && starts_with(path, base_dir) {
        if m == n {
            assert(path@ =~= base_dir@);
            start = m;
        } else if base_dir.get_char(n - 1) == '/' {
            start = n;
        } else if path.get_char(n) == '/' {
            assert(path@.subrange(0, n + 1) =~= base_dir@.push('/'));
            start = n + 1;
        } else {
            assert(!has_prefix(path@, base_dir@.push('/'))) by {
                if has_prefix(path@, base_dir@.push('/')) {
                    assert(path@.subrange(0, n + 1)[n as int] == '/');
                }
            }
        }
    } else if n > 0 {
        assert(!has_prefix(path@, base_dir@.push('/'))) by {
            if has_prefix(path@, base_dir@.push('/')) {
                assert(path@.subrange(0, n as int) =~= base_dir@);
            }
        }
        assert(path@ != base_dir@) by {
            if path@ == base_dir@ {
                assert(path@.subrange(0, n as int) =~= base_dir@);
            }
        }
    }
    let ghost rel = path@.skip(start as int);
    assert(rel =~= relative_to(path@, base_dir@));
    let mut r = String::new();
    let mut i: usize = start;
    while i < m
        invariant
            m == path@.len(),
            start <= i <= m,
            rel == path@.skip(start as int),
            r@ =~= forward_slashes(rel.take(i - start)),
        decreases m - i,
    {
        let c = path.get_char(i);
        push_char(&mut r, if c == '\\' { '/' } else { c });
        i = i + 1;
        assert(rel.take(i - start) =~= rel.take(i - start - 1).push(c));
    }
    assert(rel.take(m - start) =~= rel);
    r
}

/// The last component of `p`: what follows its last `/`.
pub open spec fn file_name_of(p: Seq<char>) -> Seq<char> {
    p.skip(last_index(p, '/') + 1)
}

/// The directory part of `p`: what precedes its last `/` (`/` itself when that is
/// the first character, empty when `p` has none).
pub open spec fn parent_of(p: Seq<char>) -> Seq<char> {
    let k = last_index(p, '/');
    if k < 0 {
        Seq::empty()
    } else if k == 0 {
        seq!['/']
    } else {
        p.take(k)
    }
}

/// The directory that holds the file at `p` (see `parent_of`).
pub fn parent_dir(p: &str) -> (r: String)
    ensures
        r@ == parent_of(p@),
{
    let k = find_last(p, '/');
    if k == 0 {
        let r = String::new();
        assert(r@ =~= Seq::<char>::empty());
        r
    } else if k == 1 {
        let mut r = String::new();
        push_char(&mut r, '/');
        assert(r@ =~= seq!['/']);
        r
    } else {
        let r = String::from_str(p.substring_char(0, k - 1));
        assert(r@ =~= p@.take(k - 1));
        r
    }
}

/// The last component of `p` (see `file_name_of`).
pub fn file_name(p: &str) -> (r: String)
    ensures
        r@ == file_name_of(p@),
{
    let k = find_last(p, '/');
    let n = p.unicode_len();
    String::from_str(p.substring_char(k, n))
}

/// The extension of a file name: what follows its last `.`, unless that dot is the
/// first character or there is none.
pub open spec fn extension_of(name: Seq<char>) -> Option<Seq<char>> {
    let k = last_index(name, '.');
    if k <= 0 {
        None
    } else {
        Some(name.skip(k + 1))
    }
}

/// A file name without its extension and the dot before it.
pub open spec fn stem_of(name: Seq<char>) -> Seq<char> {
    let k = last_index(name, '.');
    if k <= 0 {
        name
    } else {
        name.take(k)
    }
}

/// The extension of the last component of `p` (see `extension_of`).
pub fn extension(p: &str) -> (r: Option<String>)
    ensures
        r matches Some(e) ==> extension_of(file_name_of(p@)) == Some(e@),
        r is None ==> extension_of(file_name_of(p@)) is None,
{
    let name = file_name(p);
    let k = find_last(name.as_str(), '.');
    if k <= 1 {
        None
    } else {
        let n = name.as_str().unicode_len();
        Some(String::from_str(name.as_str().substring_char(k, n)))
    }
}

/// The file name that takes the place of `name` on the `n`-th collision: the stem,
/// `_`, the number in decimal, then the extension, if it is not empty, after a dot.
pub open spec fn numbered_name(name: Seq<char>, n: nat) -> Seq<char> {
    let base = stem_of(name) + seq!['_'] + decimal(n);
    match extension_of(name) {
        Some(e) if e.len() > 0 => base + seq!['.'] + e,
        _ => base,
    }
}

/// The file name that `name` takes on its `n`-th collision (see `numbered_name`).
pub fn numbered_filename(name: &str, n: u64) -> (r: String)
    ensures
        r@ == numbered_name(name@, n as nat),
{
    let k = find_last(name, '.');
    let len = name.unicode_len();
    let mut r = if k <= 1 {
        String::from_str(name)
    } else {
        String::from_str(name.substring_char(0, k - 1))
    };
    push_char(&mut r, '_');
    push_decimal(&mut r, n);
    if k > 1 && k < len {
        push_char(&mut r, '.');
        r.append(name.substring_char(k, len));
    }
    r
}

/// The sequence of views of a vector of strings.
pub open spec fn views(v: Seq<String>) -> Seq<Seq<char>> {
    v.map_values(|s: String| s@)
}

/// Whether `v` holds a string equal to `s`.
pub fn contains_str(v: &Vec<String>, s: &str) -> (r: bool)
    ensures
        r == views(v@).contains(s@),
{
    let mut i: usize = 0;
    while i < v.len()
        invariant
            0 <= i <= v.len(),
            forall|j: int| 0 <= j < i ==> v@[j]@ != s@,
        decreases v.len() - i,
    {
        if starts_with(v[i].as_str(), s) && v[i].as_str().unicode_len() == s.unicode_len() {
            assert(v@[i as int]@ =~= s@);
            assert(views(v@)[i as int] == s@);
            return true;
        }
        assert(v@[i as int]@ != s@) by {
            if v@[i as int]@ == s@ {
                assert(v@[i as int]@.subrange(0, s@.len() as int) =~= s@);
            }
        }
        i = i + 1;
    }
    assert(!views(v@).contains(s@)) by {
        if views(v@).contains(s@) {
            let j = choose|j: int| 0 <= j < views(v@).len() && views(v@)[j] == s@;
            assert(v@[j]@ == s@);
        }
    }
    false
}

/// The first numbered variant of `name` (counting from 1) that is not among
/// `existing`, the names already present in the directory; `None` only when every
/// number that fits in a `u64` is taken.
pub fn generate_unique_filename(name: &str, existing: &Vec<String>) -> (r: Option<String>)
    ensures
        r matches Some(s) ==> exists|k: nat|
            1 <= k && #[trigger] numbered_name(name@, k) == s@ && !views(existing@).contains(s@)
                && forall|j: nat| 1 <= j < k ==> views(existing@).contains(#[trigger] numbered_name(name@, j)),
        r is None ==> forall|j: nat|
            1 <= j <= u64::MAX ==> views(existing@).contains(#[trigger] numbered_name(name@, j)),
{
    let mut counter: u64 = 1;
    loop
        invariant
            1 <= counter,
            forall|j: nat| 1 <= j < counter ==> views(existing@).contains(#[trigger] numbered_name(name@, j)),
        decreases u64::MAX - counter,
    {
        let candidate = numbered_filename(name, counter);
        if !contains_str(existing, candidate.as_str()) {
            return Some(candidate);
        }
        if counter == u64::MAX {
            return None;
        }
        counter = counter + 1;
    }
}

/// Where a file called `name` goes in a directory `dir` whose entries are named
/// `existing`: `dir` joined with `name` when that name is free, else with the first
/// free numbered variant (see `generate_unique_filename`).
pub fn move_target(dir: &str, name: &str, existing: &Vec<String>) -> (r: Option<String>)
    ensures
        !views(existing@).contains(name@) ==> (r matches Some(s) && s@ == joined(dir@, name@)),
        views(existing@).contains(name@) ==> (r matches Some(s) ==> exists|k: nat|
            1 <= k && s@ == joined(dir@, #[trigger] numbered_name(name@, k))
                && !views(existing@).contains(numbered_name(name@, k))
                && forall|j: nat| 1 <= j < k ==> views(existing@).contains(#[trigger] numbered_name(name@, j))),
        views(existing@).contains(name@) && r is None ==> forall|j: nat|
            1 <= j <= u64::MAX ==> views(existing@).contains(#[trigger] numbered_name(name@, j)),
{
    if !contains_str(existing, name) {
        return Some(join_path(dir, name));
    }
    match generate_unique_filename(name, existing) {
        Some(n) => Some(join_path(dir, n.as_str())),
        None => None,
    }
}

} // verus!
