use vstd::prelude::*;

verus! {

/// Why a request on the workspace was refused.
#[derive(Clone, Debug, PartialEq, Eq)]
pub enum FsError {
    /// The operating system could not resolve, open or read a path.
    Io(String),
    /// The resolved path lies outside the workspace root.
    Traversal,
    /// The resolved path is not a regular file.
    NotAFile,
    /// The file is larger than the byte limit of the read.
    TooLarge { size: u64, max: u64 },
    /// The probed prefix of the file holds a null byte.
    BinaryContent,
    /// The file is not valid UTF-8 text.
    Decode,
}

/// `p` lies at or below `root`, compared path component by path component:
/// `root` is a prefix of `p` and the prefix ends at a separator.
pub open spec fn within(p: Seq<char>, root: Seq<char>) -> bool {
    &&& root.len() <= p.len()
    &&& p.subrange(0, root.len() as int) == root
    &&& (p.len() == root.len() || p[root.len() as int] == '/' || (root.len() > 0
        && root.last() == '/'))
}

/// A path below the root is accepted; a sibling whose name merely starts
/// with the root's last name (root `/a/b`, path `/a/bb`) is not.
pub proof fn lemma_containment_is_by_component(root: Seq<char>, name: Seq<char>, rest: Seq<char>)
    requires
        root.len() > 0,
        root.last() != '/',
        name.len() > 0,
        name[0] != '/',
    ensures
        within(root + seq!['/'] + rest, root),
        !within(root + name + rest, root),
{
    let below = root + seq!['/'] + rest;
    let sibling = root + name + rest;
    assert(below.subrange(0, root.len() as int) =~= root);
    assert(below[root.len() as int] == '/');
    assert(sibling[root.len() as int] == name[0]);
}

/// `s` without the separators at its start.
pub open spec fn strip_slashes(s: Seq<char>) -> Seq<char>
    decreases s.len(),
{
    if s.len() > 0 && s[0] == '/' {
        strip_slashes(s.drop_first())
    } else {
        s
    }
}

/// What follows `root` in `p`, without the separators between them.
pub open spec fn rest_after(p: Seq<char>, root: Seq<char>) -> Seq<char> {
    strip_slashes(p.subrange(root.len() as int, p.len() as int))
}

/// `s` with every backslash turned into a forward slash.
pub open spec fn posix_of(s: Seq<char>) -> Seq<char> {
    s.map_values(|c: char| if c == '\\' { '/' } else { c })
}

/// The display path of `p` relative to `root`; `p` itself where it is not inside `root`.
pub open spec fn relative_posix(p: Seq<char>, root: Seq<char>) -> Seq<char> {
    if within(p, root) {
        posix_of(rest_after(p, root))
    } else {
        posix_of(p)
    }
}

/// `s` with every backslash turned into a forward slash.
fn replace_backslashes(s: &str) -> (r: String)
    ensures
        r@ == posix_of(s@),
{
    let n = s.unicode_len();
    let mut r = String::new();
    let mut i: usize = 0;
    while i < n
        invariant
            n == s@.len(),
            i <= n,
            r@ == posix_of(s@.subrange(0, i as int)),
        decreases n - i,
    {
        let ghost before = r@;
        if s.get_char(i) == '\\' {
            r.append("/");
            proof {
                reveal_strlit("/");
            }
        } else {
            r.append(s.substring_char(i, i + 1));
        }
        assert(s@.subrange(0, i + 1) =~= s@.subrange(0, i as int).push(s@[i as int]));
        assert(posix_of(s@.subrange(0, i + 1)) =~= before.push(if s@[i as int] == '\\' { '/' } else { s@[i as int] }));
        i = i + 1;
        assert(r@ =~= posix_of(s@.subrange(0, i as int)));
    }
    assert(s@.subrange(0, n as int) =~= s@);
    r
}

/// The characters of `s`, in order.
pub fn chars_of(s: &str) -> (r: Vec<char>)
    ensures
        r@ == s@,
{
    let n = s.unicode_len();
    let mut r: Vec<char> = Vec::new();
    let mut i: usize = 0;
    while i < n
        invariant
            n == s@.len(),
            i <= n,
            r@ == s@.subrange(0, i as int),
        decreases n - i,
    {
        r.push(s.get_char(i));
        i = i + 1;
        assert(r@ =~= s@.subrange(0, i as int));
    }
    assert(r@ =~= s@);
    r
}

/// Decides `within` on two character sequences.
pub fn is_within(p: &Vec<char>, root: &Vec<char>) -> (r: bool)
    ensures
        r == within(p@, root@),
{
    if root.len() > p.len() {
        return false;
    }
    let mut i: usize = 0;
    while i < root.len()
        invariant
            root.len() <= p.len(),
            i <= root.len(),
            p@.subrange(0, i as int) == root@.subrange(0, i as int),
        decreases root.len() - i,
    {
        if p[i] != root[i] {
            assert(p@.subrange(0, root.len() as int)[i as int] != root@[i as int]);
            return false;
        }
        i = i + 1;
        assert(p@.subrange(0, i as int) =~= root@.subrange(0, i as int));
    }
    assert(root@.subrange(0, root.len() as int) =~= root@);
    p.len() == root.len() || p[root.len()] == '/' || (root.len() > 0 && root[root.len() - 1]
        == '/')
}

/// Accepts the canonical form of a candidate path when it lies inside the
/// canonical workspace root, and hands it back; refuses it with `Traversal`
/// otherwise. Both arguments are the results of resolving the paths against
/// the filesystem.
pub fn validate_path_within_root(path: &str, root: &str) -> (r: Result<String, FsError>)
    ensures
        within(path@, root@) ==> r is Ok && r->Ok_0@ == path@,
        !within(path@, root@) ==> r == Err::<String, FsError>(FsError::Traversal),
{
    let p = chars_of(path);
    let q = chars_of(root);
    if is_within(&p, &q) {
        Ok(path.to_owned())
    } else {
        Err(FsError::Traversal)
    }
}

/// The path of `path` relative to `root`, with forward slashes, as shown to a
/// user; `path` itself, with forward slashes, where it does not lie in `root`.
pub fn to_relative_posix_path(path: &str, root: &str) -> (r: String)
    ensures
        r@ == relative_posix(path@, root@),
{
    let p = chars_of(path);
    let q = chars_of(root);
    if is_within(&p, &q) {
        let n = path.unicode_len();
        let mut start = root.unicode_len();
        while start < n && p[start] == '/'
            invariant
                p@ == path@,
                n == p.len(),
                root@.len() <= start <= n,
                rest_after(path@, root@) == strip_slashes(path@.subrange(start as int, n as int)),
            decreases n - start,
        {
            assert(path@.subrange(start as int, n as int).drop_first() =~= path@.subrange(start + 1, n as int));
            start = start + 1;
        }
        let rest = path.substring_char(start, n);
        assert(rest@ =~= rest_after(path@, root@));
        replace_backslashes(rest)
    } else {
        replace_backslashes(path)
    }
}

/// The characters of `p` after its last `/`.
pub open spec fn last_name(p: Seq<char>) -> Seq<char>
    decreases p.len(),
{
    if p.len() == 0 {
        p
    } else if p.last() == '/' {
        Seq::empty()
    } else {
        last_name(p.drop_last()).push(p.last())
    }
}

/// The name shown for a workspace root: its last name, or the whole path
/// where it has none (the filesystem root).
pub open spec fn display_name(p: Seq<char>) -> Seq<char> {
    if last_name(p).len() > 0 {
        last_name(p)
    } else {
        p
    }
}

/// The name under which the canonical root `root` is shown.
pub fn root_display_name(root: &str) -> (r: String)
    ensures
        r@ == display_name(root@),
{
    let p = chars_of(root);
    let n = p.len();
    let mut i: usize = n;
    assert(root@.subrange(0, n as int) =~= root@);
    assert(root@.subrange(n as int, n as int) =~= Seq::<char>::empty());
    while i > 0 && p[i - 1] != '/'
        invariant
            p@ == root@,
            n == p.len(),
            i <= n,
            last_name(root@) == last_name(root@.subrange(0, i as int)) + root@.subrange(i as int, n as int),
        decreases i,
    {
        let ghost pre = root@.subrange(0, i as int);
        assert(pre.drop_last() =~= root@.subrange(0, i - 1));
        assert(root@.subrange(i - 1, n as int) =~= seq![root@[i - 1]] + root@.subrange(i as int, n as int));
        assert(last_name(pre) == last_name(pre.drop_last()).push(root@[i - 1]));
        assert(last_name(pre.drop_last()).push(root@[i - 1]) + root@.subrange(i as int, n as int)
            =~= last_name(pre.drop_last()) + root@.subrange(i - 1, n as int));
        i = i - 1;
    }
    assert(last_name(root@.subrange(0, i as int)) =~= Seq::<char>::empty());
    assert(last_name(root@) =~= root@.subrange(i as int, n as int));
    if i < n {
        root.substring_char(i, n).to_owned()
    } else {
        root.to_owned()
    }
}

/// How one component of a relative path moves the depth below the root:
/// `..` climbs one level, an empty component or `.` stays, a name descends.
pub open spec fn component_step(c: Seq<char>) -> int {
    if c == seq!['.', '.'] {
        -1
    } else if c.len() == 0 || c == seq!['.'] {
        0
    } else {
        1
    }
}

/// Reading the rest `s` of a relative path at depth `depth`, with the
/// current component read so far `cur`: some `..` climbs above the root.
pub open spec fn escapes_from(s: Seq<char>, depth: int, cur: Seq<char>) -> bool
    decreases s.len(),
{
    if s.len() == 0 {
        depth + component_step(cur) < 0
    } else if s[0] == '/' {
        depth + component_step(cur) < 0 || escapes_from(s.drop_first(), depth + component_step(cur), Seq::empty())
    } else {
        escapes_from(s.drop_first(), depth, cur.push(s[0]))
    }
}

/// The relative path `rel`, taken component by component, climbs above the
/// directory it is joined onto.
pub open spec fn escapes_root(rel: Seq<char>) -> bool {
    escapes_from(rel, 0, Seq::empty())
}

fn step_of(cur: &Vec<char>) -> (r: i8)
    ensures
        r as int == component_step(cur@),
{
    if cur.len() == 2 && cur[0] == '.' && cur[1] == '.' {
        assert(cur@ =~= seq!['.', '.']);
        -1
    } else if cur.len() == 0 || (cur.len() == 1 && cur[0] == '.') {
        if cur.len() == 1 {
            assert(cur@ =~= seq!['.']);
        }
        0
    } else {
        proof {
            if cur@ == seq!['.', '.'] {
                assert(cur@[0] == '.' && cur@[1] == '.');
            }
            if cur@ == seq!['.'] {
                assert(cur@[0] == '.');
            }
        }
        1
    }
}

/// Decides, without the filesystem, whether the relative path `rel` climbs
/// above the directory it is joined onto through its `..` components.
pub fn path_escapes_root(rel: &str) -> (r: bool)
    ensures
        r == escapes_root(rel@),
{
    let s = chars_of(rel);
    let n = s.len();
    let mut depth: usize = 0;
    let mut cur: Vec<char> = Vec::new();
    let mut i: usize = 0;
    assert(s@.skip(0) =~= s@);
    while i < n
        invariant
            s@ == rel@,
            n == s.len(),
            i <= n,
            depth <= i,
            escapes_root(rel@) == escapes_from(s@.skip(i as int), depth as int, cur@),
        decreases n - i,
    {
        assert(s@.skip(i as int).drop_first() =~= s@.skip(i + 1));
        assert(s@.skip(i as int)[0] == s@[i as int]);
        if s[i] == '/' {
            let st = step_of(&cur);
            if st < 0 && depth == 0 {
                return true;
            }
            if st < 0 {
                depth = depth - 1;
            } else if st > 0 {
                depth = depth + 1;
            }
            cur = Vec::new();
            assert(cur@ =~= Seq::<char>::empty());
        } else {
            cur.push(s[i]);
        }
        i = i + 1;
    }
    let st = step_of(&cur);
    st < 0 && depth == 0
}

} // verus!
