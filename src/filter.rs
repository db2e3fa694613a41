use vstd::prelude::*;

use crate::path::{chars_of, is_within, within};

verus! {

/// What a walked entry is, without following it when it is a link.
#[derive(Clone, Copy, Debug, PartialEq, Eq)]
pub enum EntryKind {
    Dir,
    File,
    /// A symbolic link; `to_dir` tells whether its target is a directory.
    Symlink { to_dir: bool },
    /// Anything else (a socket, a device, a pipe).
    Other,
}

/// One entry met by the directory walk, as the filter sees it.
#[derive(Clone, Debug)]
pub struct EntryInfo {
    /// The entry's base name.
    pub name: String,
    pub kind: EntryKind,
    /// For a link, the canonical path of its target; `None` where it could
    /// not be resolved.
    pub resolved_target: Option<String>,
}

/// Directory names whose whole subtree the walk leaves out.
pub open spec fn is_ignored_dir_name(n: Seq<char>) -> bool {
    n == ".git"@ || n == "node_modules"@ || n == "dist"@ || n == "build"@ || n == "target"@
        || n == ".next"@ || n == ".turbo"@ || n == ".cache"@
}

/// Dotted directory names that the walk still enters.
pub open spec fn is_allowed_hidden_dir_name(n: Seq<char>) -> bool {
    n == ".github"@ || n == ".vscode"@
}

/// File names that the walk leaves out.
pub open spec fn is_ignored_file_name(n: Seq<char>) -> bool {
    n == ".DS_Store"@
}

pub open spec fn is_dotted(n: Seq<char>) -> bool {
    n.len() > 0 && n[0] == '.'
}

/// Whether the walk skips an entry (and, for a directory, all below it).
pub open spec fn ignored(e: EntryInfo, canonical_root: Seq<char>) -> bool {
    match e.kind {
        EntryKind::Symlink { to_dir } => to_dir || match e.resolved_target {
            Some(t) => !within(t@, canonical_root),
            None => true,
        },
        EntryKind::Dir => is_ignored_dir_name(e.name@) || (is_dotted(e.name@)
            && !is_allowed_hidden_dir_name(e.name@)),
        EntryKind::File => is_ignored_file_name(e.name@),
        EntryKind::Other => false,
    }
}

/// Whether the characters `a` spell the string `b`.
pub fn chars_equal(a: &Vec<char>, b: &str) -> (r: bool)
    ensures
        r == (a@ == b@),
{
    let n = b.unicode_len();
    if a.len() != n {
        return false;
    }
    let mut i: usize = 0;
    while i < n
        invariant
            n == b@.len(),
            a.len() == n,
            i <= n,
            a@.subrange(0, i as int) == b@.subrange(0, i as int),
        decreases n - i,
    {
        if a[i] != b.get_char(i) {
            assert(a@[i as int] != b@[i as int]);
            return false;
        }
        i = i + 1;
        assert(a@.subrange(0, i as int) =~= b@.subrange(0, i as int));
    }
    assert(a@ =~= a@.subrange(0, n as int));
    assert(b@ =~= b@.subrange(0, n as int));
    true
}

fn ignored_dir_name(n: &Vec<char>) -> (r: bool)
    ensures
        r == is_ignored_dir_name(n@),
{
    chars_equal(n, ".git") || chars_equal(n, "node_modules") || chars_equal(n, "dist")
        || chars_equal(n, "build") || chars_equal(n, "target") || chars_equal(n, ".next")
        || chars_equal(n, ".turbo") || chars_equal(n, ".cache")
}

fn allowed_hidden_dir_name(n: &Vec<char>) -> (r: bool)
    ensures
        r == is_allowed_hidden_dir_name(n@),
{
    chars_equal(n, ".github") || chars_equal(n, ".vscode")
}

/// Decides whether the walk skips `entry`: links to directories always, links
/// to files unless their target resolves inside the root, denylisted
/// directories and files, and dotted directories that are not allowlisted.
pub fn should_ignore_entry(entry: &EntryInfo, canonical_root: &str) -> (r: bool)
    ensures
        r == ignored(*entry, canonical_root@),
{
    let name = chars_of(entry.name.as_str());
    match entry.kind {
        EntryKind::Symlink { to_dir } => {
            if to_dir {
                return true;
            }
            match &entry.resolved_target {
                Some(t) => {
                    let tc = chars_of(t.as_str());
                    let rc = chars_of(canonical_root);
                    !is_within(&tc, &rc)
                },
                None => true,
            }
        },
        EntryKind::Dir => {
            if ignored_dir_name(&name) {
                return true;
            }
            name.len() > 0 && name[0] == '.' && !allowed_hidden_dir_name(&name)
        },
        EntryKind::File => chars_equal(&name, ".DS_Store"),
        EntryKind::Other => false,
    }
}

} // verus!
