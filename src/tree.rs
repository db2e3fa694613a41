use vstd::prelude::*;

use crate::order::{
    key_less,
    key_lt,
    lemma_key_asymmetric,
    lemma_key_lt_le,
    lemma_key_not_lt_chain,
};

verus! {

/// Largest depth, counted from the root, at which an entry enters the tree.
pub const MAX_DEPTH: usize = 10;

/// Most nodes, the root left aside, that one tree holds.
pub const MAX_NODES: usize = 50000;

/// Files above this many bytes are marked too large to open.
pub const LARGE_FILE_THRESHOLD: u64 = 2097152;

#[derive(Clone, Copy, Debug, PartialEq, Eq)]
pub enum NodeType {
    Dir,
    File,
}

/// One entry of the workspace, relative to its root.
#[derive(Debug)]
pub struct TreeNode {
    pub name: String,
    /// Path from the root, with `/` between names; empty for the root.
    pub path: String,
    pub node_type: NodeType,
    /// The entries of a directory, sorted; `None` for a file.
    pub children: Option<Vec<TreeNode>>,
    /// Size of a file whose metadata could be read.
    pub size_bytes: Option<u64>,
    pub is_too_large: bool,
}

/// One entry of the directory walk below the root, in the walk's order: a
/// directory comes before what it holds, and what it holds follows it
/// without a gap.
#[derive(Clone, Debug)]
pub struct WalkEntry {
    pub name: String,
    /// 1 for an entry directly in the root.
    pub depth: usize,
    pub is_dir: bool,
    /// Size of a file whose metadata could be read.
    pub size_bytes: Option<u64>,
}

/// `s[start..end]` is in the order of a depth-first walk: each entry has a
/// proper name and a depth from 1 to `MAX_DEPTH`, and it is at most one
/// level deeper than the entry before it, and then only below a directory.
pub open spec fn walk_ordered(s: Seq<WalkEntry>, start: int, end: int) -> bool {
    &&& forall|i: int| start <= i < end ==> 1 <= #[trigger] s[i].depth <= MAX_DEPTH && proper_name(s[i].name@)
    &&& forall|i: int| start < i < end ==> #[trigger] s[i].depth <= s[i - 1].depth + 1 && (s[i].depth
        == s[i - 1].depth + 1 ==> s[i - 1].is_dir)
}

/// The entries of a whole walk below a root, in walk order.
pub open spec fn walk_order_ok(s: Seq<WalkEntry>) -> bool {
    &&& s.len() > 0 ==> s[0].depth == 1
    &&& walk_ordered(s, 0, s.len() as int)
}

/// How many entries of a walk enter its tree: the first `MAX_NODES`.
pub open spec fn admitted(entries: Seq<WalkEntry>) -> int {
    if entries.len() < MAX_NODES {
        entries.len() as int
    } else {
        MAX_NODES as int
    }
}

/// Case folding by str::to_lowercase.
pub uninterp spec fn lower_of(s: Seq<char>) -> Seq<char>;

/// A name that, joined onto a path, names an entry directly below it.
pub open spec fn proper_name(n: Seq<char>) -> bool {
    &&& n.len() > 0
    &&& n != seq!['.']
    &&& n != seq!['.', '.']
    &&& forall|i: int| 0 <= i < n.len() ==> n[i] != '/'
}

/// `name` appended to the relative path `prefix`.
pub open spec fn join(prefix: Seq<char>, name: Seq<char>) -> Seq<char> {
    if prefix.len() == 0 {
        name
    } else {
        prefix + seq!['/'] + name
    }
}

/// Display order: directories before files, then by case-folded name.
pub open spec fn node_lt(a: TreeNode, b: TreeNode) -> bool {
    key_lt(a.node_type == NodeType::File, lower_of(a.name@), b.node_type == NodeType::File, lower_of(b.name@))
}

pub open spec fn sorted_nodes(s: Seq<TreeNode>) -> bool {
    forall|i: int, j: int| 0 <= i < j < s.len() ==> !node_lt(#[trigger] s[j], #[trigger] s[i])
}

pub open spec fn file_fields_ok(t: TreeNode) -> bool {
    &&& t.children is None
    &&& t.is_too_large == (t.size_bytes is Some && t.size_bytes->Some_0 > LARGE_FILE_THRESHOLD)
}

/// What `t` must satisfy by itself as a node at depth `level` whose parent
/// has the path `prefix`: its path is `prefix` joined with its proper name,
/// a file has no children and is marked too large exactly when its size is
/// above the threshold, a directory has sorted children and none at all at
/// `MAX_DEPTH`.
pub open spec fn node_fields_ok(t: TreeNode, prefix: Seq<char>, level: int) -> bool {
    &&& 1 <= level <= MAX_DEPTH
    &&& proper_name(t.name@)
    &&& t.path@ == join(prefix, t.name@)
    &&& match t.node_type {
        NodeType::File => file_fields_ok(t),
        NodeType::Dir => {
            &&& t.children is Some
            &&& t.size_bytes is None
            &&& !t.is_too_large
            &&& sorted_nodes(t.children->Some_0@)
            &&& (level == MAX_DEPTH ==> t.children->Some_0@.len() == 0)
        },
    }
}

/// Every node of the forest `s`, whose roots are at depth `level` below the
/// directory `prefix`, satisfies `node_fields_ok`, and so do all below them.
pub open spec fn forest_ok(s: Seq<TreeNode>, prefix: Seq<char>, level: int) -> bool
    decreases MAX_DEPTH - level, s.len(),
{
    if s.len() == 0 {
        true
    } else {
        let t = s.last();
        &&& forest_ok(s.drop_last(), prefix, level)
        &&& node_fields_ok(t, prefix, level)
        &&& (level < MAX_DEPTH && t.children is Some ==> forest_ok(
            t.children->Some_0@,
            t.path@,
            level + 1,
        ))
    }
}

/// The subtree `t` is well formed at depth `level` below `prefix`.
pub open spec fn node_ok(t: TreeNode, prefix: Seq<char>, level: int) -> bool {
    forest_ok(seq![t], prefix, level)
}

/// The siblings `s` are sorted and every subtree among them is well formed.
pub open spec fn children_ok(s: Seq<TreeNode>, prefix: Seq<char>, level: int) -> bool {
    &&& sorted_nodes(s)
    &&& forest_ok(s, prefix, level)
}

pub proof fn lemma_forest_append(a: Seq<TreeNode>, b: Seq<TreeNode>, prefix: Seq<char>, level: int)
    ensures
        forest_ok(a + b, prefix, level) == (forest_ok(a, prefix, level) && forest_ok(b, prefix, level)),
    decreases b.len(),
{
    if b.len() == 0 {
        assert(a + b =~= a);
    } else {
        assert((a + b).drop_last() =~= a + b.drop_last());
        assert((a + b).last() == b.last());
        lemma_forest_append(a, b.drop_last(), prefix, level);
    }
}

proof fn lemma_forest_insert(s: Seq<TreeNode>, pos: int, x: TreeNode, prefix: Seq<char>, level: int)
    requires
        0 <= pos <= s.len(),
    ensures
        forest_ok(s.insert(pos, x), prefix, level) == (forest_ok(s, prefix, level) && node_ok(x, prefix, level)),
{
    let a = s.subrange(0, pos);
    let b = s.subrange(pos, s.len() as int);
    assert(s =~= a + b);
    assert(s.insert(pos, x) =~= a + (seq![x] + b));
    lemma_forest_append(a, seq![x] + b, prefix, level);
    lemma_forest_append(seq![x], b, prefix, level);
    lemma_forest_append(a, b, prefix, level);
}

/// `t` stands for the walk entry `e` at depth `level`: same name, same
/// kind and, for a file, the same size.
pub open spec fn node_matches_entry(t: TreeNode, e: WalkEntry, level: int) -> bool {
    &&& t.name@ == e.name@
    &&& e.depth == level
    &&& (t.node_type == NodeType::Dir) == e.is_dir
    &&& (t.node_type == NodeType::File ==> t.size_bytes == e.size_bytes)
}

/// The nodes of the forest `s`, whose roots are at depth `level`, each with
/// its depth: every root after the forest before it, and followed by its own
/// subtree.
pub open spec fn flat(s: Seq<TreeNode>, level: int) -> Seq<(TreeNode, int)>
    decreases MAX_DEPTH - level, s.len(),
{
    if s.len() == 0 {
        Seq::empty()
    } else {
        let t = s.last();
        let below = if level < MAX_DEPTH && t.children is Some {
            flat(t.children->Some_0@, level + 1)
        } else {
            Seq::empty()
        };
        flat(s.drop_last(), level) + seq![(t, level)] + below
    }
}

/// `idx` gives each node of `f` its own entry among `entries[lo..hi]`,
/// which it stands for: no two nodes share an entry.
pub open spec fn drawn_from(f: Seq<(TreeNode, int)>, entries: Seq<WalkEntry>, idx: Seq<int>, lo: int, hi: int) -> bool {
    &&& idx.len() == f.len()
    &&& forall|k: int| 0 <= k < idx.len() ==> lo <= #[trigger] idx[k] < hi && node_matches_entry(f[k].0, entries[idx[k]], f[k].1)
    &&& forall|k1: int, k2: int| 0 <= k1 < idx.len() && 0 <= k2 < idx.len() && k1 != k2 ==> #[trigger] idx[k1] != #[trigger] idx[k2]
}

pub proof fn lemma_flat_append(a: Seq<TreeNode>, b: Seq<TreeNode>, level: int)
    ensures
        flat(a + b, level) == flat(a, level) + flat(b, level),
    decreases b.len(),
{
    if b.len() == 0 {
        assert(a + b =~= a);
        assert(flat(a, level) + flat(b, level) =~= flat(a, level));
    } else {
        assert((a + b).drop_last() =~= a + b.drop_last());
        assert((a + b).last() == b.last());
        lemma_flat_append(a, b.drop_last(), level);
        let t = b.last();
        let below = if level < MAX_DEPTH && t.children is Some {
            flat(t.children->Some_0@, level + 1)
        } else {
            Seq::empty()
        };
        assert(flat(a, level) + flat(b.drop_last(), level) + seq![(t, level)] + below =~= flat(a, level) + (flat(
            b.drop_last(),
            level,
        ) + seq![(t, level)] + below));
    }
}

proof fn lemma_drawn_join(
    fa: Seq<(TreeNode, int)>,
    fb: Seq<(TreeNode, int)>,
    fx: Seq<(TreeNode, int)>,
    ia: Seq<int>,
    ib: Seq<int>,
    ix: Seq<int>,
    entries: Seq<WalkEntry>,
    start: int,
    at: int,
    i: int,
)
    requires
        drawn_from(fa + fb, entries, ia + ib, start, at),
        ia.len() == fa.len(),
        drawn_from(fx, entries, ix, at, i),
        start <= at <= i,
    ensures
        drawn_from(fa + fx + fb, entries, ia + ix + ib, start, i),
{
    let f = fa + fx + fb;
    let idx = ia + ix + ib;
    let old_f = fa + fb;
    let old_i = ia + ib;
    assert forall|k: int| 0 <= k < idx.len() implies start <= #[trigger] idx[k] < i && node_matches_entry(
        f[k].0,
        entries[idx[k]],
        f[k].1,
    ) by {
        if k < ia.len() {
            assert(idx[k] == old_i[k] && f[k] == old_f[k]);
        } else if k < ia.len() + ix.len() {
            assert(idx[k] == ix[k - ia.len()] && f[k] == fx[k - ia.len()]);
        } else {
            let o = k - ix.len();
            assert(idx[k] == old_i[o] && f[k] == old_f[o]);
        }
    }
    assert forall|k1: int, k2: int| 0 <= k1 < idx.len() && 0 <= k2 < idx.len() && k1 != k2 implies #[trigger] idx[k1]
        != #[trigger] idx[k2] by {
        let in_x1 = ia.len() <= k1 < ia.len() + ix.len();
        let in_x2 = ia.len() <= k2 < ia.len() + ix.len();
        let o1 = if k1 < ia.len() { k1 } else { k1 - ix.len() };
        let o2 = if k2 < ia.len() { k2 } else { k2 - ix.len() };
        if in_x1 && in_x2 {
            assert(idx[k1] == ix[k1 - ia.len()] && idx[k2] == ix[k2 - ia.len()]);
        } else if in_x1 {
            assert(idx[k1] == ix[k1 - ia.len()] && idx[k2] == old_i[o2]);
        } else if in_x2 {
            assert(idx[k2] == ix[k2 - ia.len()] && idx[k1] == old_i[o1]);
        } else {
            assert(idx[k1] == old_i[o1] && idx[k2] == old_i[o2]);
        }
    }
}

proof fn lemma_drawn_insert(
    before: Seq<TreeNode>,
    pos: int,
    x: TreeNode,
    idx: Seq<int>,
    ix: Seq<int>,
    entries: Seq<WalkEntry>,
    start: int,
    at: int,
    i: int,
    level: int,
)
    requires
        0 <= pos <= before.len(),
        start <= at <= i,
        drawn_from(flat(before, level), entries, idx, start, at),
        drawn_from(flat(seq![x], level), entries, ix, at, i),
    ensures
        flat(before.subrange(0, pos), level).len() <= idx.len(),
        drawn_from(
            flat(before.insert(pos, x), level),
            entries,
            idx.subrange(0, flat(before.subrange(0, pos), level).len() as int) + ix + idx.subrange(
                flat(before.subrange(0, pos), level).len() as int,
                idx.len() as int,
            ),
            start,
            i,
        ),
{
    let a = before.subrange(0, pos);
    let b = before.subrange(pos, before.len() as int);
    assert(before =~= a + b);
    assert(before.insert(pos, x) =~= a + (seq![x] + b));
    lemma_flat_append(a, b, level);
    lemma_flat_append(a, seq![x] + b, level);
    lemma_flat_append(seq![x], b, level);
    let la = flat(a, level).len() as int;
    let ia = idx.subrange(0, la);
    let ib = idx.subrange(la, idx.len() as int);
    assert(idx =~= ia + ib);
    lemma_drawn_join(flat(a, level), flat(b, level), flat(seq![x], level), ia, ib, ix, entries, start, at, i);
    assert(flat(a, level) + (flat(seq![x], level) + flat(b, level)) =~= flat(a, level) + flat(seq![x], level) + flat(b, level));
}

/// A name that no admitted entry of the walk carries appears nowhere in a
/// tree drawn from it: a directory that the walk pruned is absent, and so is
/// everything that was below it.
pub proof fn lemma_unwalked_name_is_absent(t: TreeNode, entries: Seq<WalkEntry>, name: Seq<char>)
    requires
        t.children is Some,
        exists|idx: Seq<int>| #[trigger] drawn_from(flat(t.children->Some_0@, 1), entries, idx, 0, admitted(entries)),
        forall|i: int| 0 <= i < entries.len() ==> (#[trigger] entries[i]).name@ != name,
    ensures
        forall|k: int| 0 <= k < flat(t.children->Some_0@, 1).len() ==> (#[trigger] flat(t.children->Some_0@, 1)[k]).0.name@ != name,
{
    let f = flat(t.children->Some_0@, 1);
    let idx = choose|idx: Seq<int>| #[trigger] drawn_from(f, entries, idx, 0, admitted(entries));
    assert forall|k: int| 0 <= k < f.len() implies (#[trigger] f[k]).0.name@ != name by {
        assert(node_matches_entry(f[k].0, entries[idx[k]], f[k].1));
    }
}

/// Number of nodes in the forest `s` whose roots are at depth `level`.
pub open spec fn count_nodes(s: Seq<TreeNode>, level: int) -> nat
    decreases MAX_DEPTH - level, s.len(),
{
    if s.len() == 0 {
        0
    } else {
        let t = s.last();
        let below: nat = if level < MAX_DEPTH && t.children is Some {
            count_nodes(t.children->Some_0@, level + 1)
        } else {
            0
        };
        count_nodes(s.drop_last(), level) + 1 + below
    }
}

/// The tree rooted at `t` is well formed: the root has an empty path, its
/// children are sorted and well formed, and it holds at most `MAX_NODES`
/// nodes besides the root.
pub open spec fn tree_ok(t: TreeNode) -> bool {
    &&& t.path@.len() == 0
    &&& t.node_type == NodeType::Dir
    &&& t.children is Some
    &&& children_ok(t.children->Some_0@, Seq::empty(), 1)
    &&& count_nodes(t.children->Some_0@, 1) <= MAX_NODES
}

pub proof fn lemma_count_append(a: Seq<TreeNode>, b: Seq<TreeNode>, level: int)
    ensures
        count_nodes(a + b, level) == count_nodes(a, level) + count_nodes(b, level),
    decreases b.len(),
{
    if b.len() == 0 {
        assert(a + b =~= a);
    } else {
        assert((a + b).drop_last() =~= a + b.drop_last());
        assert((a + b).last() == b.last());
        lemma_count_append(a, b.drop_last(), level);
    }
}

proof fn lemma_count_insert(s: Seq<TreeNode>, pos: int, x: TreeNode, level: int)
    requires
        0 <= pos <= s.len(),
    ensures
        count_nodes(s.insert(pos, x), level) == count_nodes(s, level) + count_nodes(seq![x], level),
{
    let a = s.subrange(0, pos);
    let b = s.subrange(pos, s.len() as int);
    assert(s =~= a + b);
    assert(s.insert(pos, x) =~= a + (seq![x] + b));
    lemma_count_append(a, seq![x] + b, level);
    lemma_count_append(seq![x], b, level);
    lemma_count_append(a, b, level);
}

/// Relies on str::to_lowercase, whose result depends on the characters alone;
/// the characters of the lowered name are handed out one by one.
#[verifier::external_body]
fn lowercase_chars(s: &str) -> (r: Vec<char>)
    ensures
        r@ == lower_of(s@),
{
    s.to_lowercase().chars().collect()
}

/// Decides `proper_name`.
fn is_proper_name(n: &str) -> (r: bool)
    ensures
        r == proper_name(n@),
{
    let len = n.unicode_len();
    if len == 0 {
        return false;
    }
    let mut dots: usize = 0;
    let mut i: usize = 0;
    while i < len
        invariant
            len == n@.len(),
            i <= len,
            forall|j: int| 0 <= j < i ==> n@[j] != '/',
            dots <= i,
            dots == i <==> (forall|j: int| 0 <= j < i ==> n@[j] == '.'),
        decreases len - i,
    {
        let c = n.get_char(i);
        if c == '/' {
            return false;
        }
        if c == '.' && dots == i {
            dots = dots + 1;
        }
        i = i + 1;
    }
    if dots == len && len <= 2 {
        if len == 1 {
            assert(n@ =~= seq!['.']);
        } else {
            assert(n@ =~= seq!['.', '.']);
        }
        return false;
    }
    proof {
        if n@ == seq!['.'] {
            assert(n@[0] == '.');
        }
        if n@ == seq!['.', '.'] {
            assert(n@[0] == '.' && n@[1] == '.');
        }
    }
    true
}

/// The relative path of an entry named `name` inside the directory `prefix`.
fn join_path(prefix: &String, name: &String) -> (r: String)
    ensures
        r@ == join(prefix@, name@),
{
    if prefix.as_str().is_empty() {
        name.clone()
    } else {
        let mut r = prefix.clone();
        r.append("/");
        r.append(name.as_str());
        proof {
            reveal_strlit("/");
        }
        assert(r@ =~= join(prefix@, name@));
        r
    }
}

fn is_file_node(t: &TreeNode) -> (r: bool)
    ensures
        r == (t.node_type == NodeType::File),
{
    match t.node_type {
        NodeType::File => true,
        NodeType::Dir => false,
    }
}

/// Puts `node` among the sorted `children`, after those it does not come
/// before; `keys` holds the case-folded name of each child.
fn insert_sorted(children: &mut Vec<TreeNode>, keys: &mut Vec<Vec<char>>, node: TreeNode) -> (r: usize)
    requires
        old(children).len() == old(keys).len(),
        forall|k: int| 0 <= k < old(keys).len() ==> #[trigger] old(keys)@[k]@ == lower_of(old(children)@[k].name@),
        sorted_nodes(old(children)@),
    ensures
        r <= old(children).len(),
        final(children)@ == old(children)@.insert(r as int, node),
        final(children).len() == final(keys).len(),
        forall|k: int| 0 <= k < final(keys).len() ==> #[trigger] final(keys)@[k]@ == lower_of(final(children)@[k].name@),
        sorted_nodes(final(children)@),
{
    let key = lowercase_chars(node.name.as_str());
    let is_file = is_file_node(&node);
    let ghost x = node;
    let mut lo: usize = 0;
    let mut hi: usize = children.len();
    while lo < hi
        invariant
            lo <= hi <= children.len(),
            children.len() == keys.len(),
            children@ == old(children)@,
            keys@ == old(keys)@,
            forall|k: int| 0 <= k < keys.len() ==> #[trigger] keys@[k]@ == lower_of(children@[k].name@),
            sorted_nodes(children@),
            key@ == lower_of(x.name@),
            is_file == (x.node_type == NodeType::File),
            forall|j: int| 0 <= j < lo ==> !node_lt(x, #[trigger] children@[j]),
            forall|j: int| hi <= j < children.len() ==> node_lt(x, #[trigger] children@[j]),
        decreases hi - lo,
    {
        let mid = lo + (hi - lo) / 2;
        let mid_file = is_file_node(&children[mid]);
        if key_less(is_file, &key, mid_file, &keys[mid]) {
            proof {
                assert forall|j: int| mid <= j < hi implies node_lt(x, #[trigger] children@[j]) by {
                    if j > mid {
                        let c = children@;
                        assert(!node_lt(c[j], c[mid as int]));
                        lemma_key_lt_le(
                            x.node_type == NodeType::File, lower_of(x.name@),
                            c[mid as int].node_type == NodeType::File, lower_of(c[mid as int].name@),
                            c[j].node_type == NodeType::File, lower_of(c[j].name@),
                        );
                    }
                }
            }
            hi = mid;
        } else {
            proof {
                assert forall|j: int| 0 <= j <= mid implies !node_lt(x, #[trigger] children@[j]) by {
                    if j < mid {
                        let c = children@;
                        assert(!node_lt(c[mid as int], c[j]));
                        lemma_key_not_lt_chain(
                            x.node_type == NodeType::File, lower_of(x.name@),
                            c[mid as int].node_type == NodeType::File, lower_of(c[mid as int].name@),
                            c[j].node_type == NodeType::File, lower_of(c[j].name@),
                        );
                    }
                }
            }
            lo = mid + 1;
        }
    }
    let ghost before = children@;
    children.insert(lo, node);
    keys.insert(lo, key);
    proof {
        let s = children@;
        assert forall|i: int, j: int| 0 <= i < j < s.len() implies !node_lt(#[trigger] s[j], #[trigger] s[i]) by {
            if j == lo {
                assert(s[i] == before[i]);
            } else if i == lo {
                assert(s[j] == before[j - 1]);
                lemma_key_asymmetric(
                    x.node_type == NodeType::File, lower_of(x.name@),
                    s[j].node_type == NodeType::File, lower_of(s[j].name@),
                );
            } else {
                let bi = if i < lo { i } else { i - 1 };
                let bj = if j < lo { j } else { j - 1 };
                assert(s[i] == before[bi] && s[j] == before[bj]);
            }
        }
        assert forall|k: int| 0 <= k < keys.len() implies #[trigger] keys@[k]@ == lower_of(children@[k].name@) by {
            if k < lo {
            } else if k > lo {
                assert(children@[k] == before[k - 1]);
            }
        }
    }
    lo
}

/// Assembles the siblings at depth `level` whose parent has the relative
/// path `prefix`, from `entries[start..end]` in walk order. It stops at the
/// first entry that lies above `level` and returns where it stopped. Entries
/// deeper than a file, or without a proper name, are passed over.
fn build_children(
    entries: &Vec<WalkEntry>,
    start: usize,
    end: usize,
    level: usize,
    prefix: &String,
) -> (r: (Vec<TreeNode>, usize, Ghost<Seq<int>>))
    requires
        1 <= level <= MAX_DEPTH,
        start <= end <= entries.len(),
    ensures
        start <= r.1 <= end,
        children_ok(r.0@, prefix@, level as int),
        count_nodes(r.0@, level as int) <= r.1 - start,
        drawn_from(flat(r.0@, level as int), entries@, r.2@, start as int, r.1 as int),
        walk_ordered(entries@, start as int, end as int) && (start < end ==> entries@[start as int].depth
            <= level) ==> count_nodes(r.0@, level as int) == r.1 - start && r.2@.len() == r.1 - start && (r.1 == end
            || entries@[r.1 as int].depth < level),
    decreases MAX_DEPTH - level,
{
    let ghost ordered = walk_ordered(entries@, start as int, end as int) && (start < end
        ==> entries@[start as int].depth <= level);
    let mut children: Vec<TreeNode> = Vec::new();
    let mut keys: Vec<Vec<char>> = Vec::new();
    let mut i: usize = start;
    let ghost mut idx: Seq<int> = Seq::empty();
    assert(flat(children@, level as int) =~= Seq::<(TreeNode, int)>::empty());
    while i < end
        invariant
            start <= i <= end <= entries.len(),
            1 <= level <= MAX_DEPTH,
            children.len() == keys.len(),
            forall|k: int| 0 <= k < keys.len() ==> #[trigger] keys@[k]@ == lower_of(children@[k].name@),
            children_ok(children@, prefix@, level as int),
            count_nodes(children@, level as int) <= i - start,
            drawn_from(flat(children@, level as int), entries@, idx, start as int, i as int),
            ordered ==> idx.len() == i - start,
            ordered == (walk_ordered(entries@, start as int, end as int) && (start < end
                ==> entries@[start as int].depth <= level)),
            ordered ==> count_nodes(children@, level as int) == i - start && (i < end
                ==> entries@[i as int].depth <= level),
        ensures
            start <= i <= end,
            i == end || entries@[i as int].depth < level,
        decreases end - i,
    {
        let e = &entries[i];
        if e.depth < level {
            break;
        }
        if e.depth > level || !is_proper_name(e.name.as_str()) {
            i = i + 1;
            continue;
        }
        let path = join_path(prefix, &e.name);
        let at = i;
        i = i + 1;
        let ghost mut ix: Seq<int> = seq![at as int];
        let node = if e.is_dir {
            proof {
                if ordered && i < end {
                    assert(entries@[i as int].depth <= entries@[i - 1].depth + 1);
                }
            }
            let kids = if level < MAX_DEPTH {
                let (k, j, gk) = build_children(entries, i, end, level + 1, &path);
                proof {
                    ix = seq![at as int] + gk@;
                }
                i = j;
                k
            } else {
                Vec::new()
            };
            let t = TreeNode {
                name: e.name.clone(),
                path,
                node_type: NodeType::Dir,
                children: Some(kids),
                size_bytes: None,
                is_too_large: false,
            };
            proof {
                if ordered && i < end {
                    assert(entries@[i as int].depth <= level);
                }
                assert(seq![t].drop_last() =~= Seq::<TreeNode>::empty());
                assert(seq![t].last() == t);
                assert(count_nodes(Seq::<TreeNode>::empty(), level as int) == 0);
                assert(forest_ok(Seq::<TreeNode>::empty(), prefix@, level as int));
                if level < MAX_DEPTH {
                    assert(forest_ok(kids@, t.path@, level + 1));
                    assert(count_nodes(seq![t], level as int) == 1 + count_nodes(kids@, level + 1));
                } else {
                    assert(count_nodes(seq![t], level as int) == 1);
                }
                assert(node_ok(t, prefix@, level as int));
            }
            t
        } else {
            let too_large = match e.size_bytes {
                Some(n) => n > LARGE_FILE_THRESHOLD,
                None => false,
            };
            let t = TreeNode {
                name: e.name.clone(),
                path,
                node_type: NodeType::File,
                children: None,
                size_bytes: e.size_bytes,
                is_too_large: too_large,
            };
            proof {
                if ordered && i < end {
                    assert(entries@[i as int].depth <= entries@[i - 1].depth + 1);
                }
                assert(seq![t].drop_last() =~= Seq::<TreeNode>::empty());
                assert(seq![t].last() == t);
                assert(count_nodes(Seq::<TreeNode>::empty(), level as int) == 0);
                assert(forest_ok(Seq::<TreeNode>::empty(), prefix@, level as int));
                assert(count_nodes(seq![t], level as int) == 1);
                assert(node_ok(t, prefix@, level as int));
            }
            t
        };
        let ghost x = node;
        let ghost before = children@;
        proof {
            assert(node_ok(x, prefix@, level as int));
            assert(count_nodes(seq![x], level as int) <= i - at);
            assert(ordered ==> count_nodes(seq![x], level as int) == i - at);
            assert(node_matches_entry(x, entries@[at as int], level as int));
            assert(seq![x].drop_last() =~= Seq::<TreeNode>::empty());
            assert(seq![x].last() == x);
            let one = seq![(x, level as int)];
            let below = if level < MAX_DEPTH && x.children is Some {
                flat(x.children->Some_0@, level + 1)
            } else {
                Seq::empty()
            };
            assert(flat(Seq::<TreeNode>::empty(), level as int) =~= Seq::<(TreeNode, int)>::empty());
            assert(flat(seq![x], level as int) =~= one + below);
            assert(drawn_from(one, entries@, seq![at as int], at as int, at + 1));
            if below.len() > 0 {
                lemma_drawn_join(one, Seq::empty(), below, seq![at as int], Seq::empty(), ix.drop_first(),
                    entries@, at as int, at + 1, i as int);
                assert(one + below + Seq::<(TreeNode, int)>::empty() =~= one + below);
                assert(seq![at as int] + ix.drop_first() + Seq::<int>::empty() =~= ix);
            } else {
                assert(one + below =~= one);
                assert(ix.drop_first().len() == 0);
                assert(ix =~= seq![at as int]);
            }
            assert(drawn_from(flat(seq![x], level as int), entries@, ix, at as int, i as int));
            assert(ordered ==> ix.len() == i - at);
        }
        let pos = insert_sorted(&mut children, &mut keys, node);
        proof {
            lemma_count_insert(before, pos as int, x, level as int);
            lemma_forest_insert(before, pos as int, x, prefix@, level as int);
            lemma_drawn_insert(before, pos as int, x, idx, ix, entries@, start as int, at as int, i as int, level as int);
        }
        proof {
            let la = flat(before.subrange(0, pos as int), level as int).len() as int;
            idx = idx.subrange(0, la) + ix + idx.subrange(la, idx.len() as int);
        }
    }
    (children, i, Ghost(idx))
}

/// Assembles the tree of a workspace from the entries of one walk below its
/// root, in walk order. At most `MAX_NODES` entries are admitted, the first
/// ones; the nodes are nested by depth, up to `MAX_DEPTH`, and each
/// directory's children are sorted directories first, then by case-folded
/// name. Files above `LARGE_FILE_THRESHOLD` bytes are marked too large.
/// Each node stands for its own admitted entry (same name, depth, kind and
/// size); when the entries are in walk order, every admitted entry has its
/// node.
pub fn build_tree(root_name: &str, entries: &Vec<WalkEntry>) -> (r: TreeNode)
    ensures
        tree_ok(r),
        r.name@ == root_name@,
        r.size_bytes is None,
        !r.is_too_large,
        exists|idx: Seq<int>|
            #[trigger] drawn_from(
                flat(r.children->Some_0@, 1),
                entries@,
                idx,
                0,
                admitted(entries@),
            ),
        walk_order_ok(entries@) ==> count_nodes(r.children->Some_0@, 1) == flat(r.children->Some_0@, 1).len()
            == admitted(entries@),
{
    let end: usize = if entries.len() < MAX_NODES { entries.len() } else { MAX_NODES };
    let top = String::new();
    let (kids, _, g) = build_children(entries, 0, end, 1, &top);
    assert(admitted(entries@) == end as int);
    assert(drawn_from(flat(kids@, 1), entries@, g@, 0, admitted(entries@)));
    TreeNode {
        name: root_name.to_owned(),
        path: String::new(),
        node_type: NodeType::Dir,
        children: Some(kids),
        size_bytes: None,
        is_too_large: false,
    }
}

} // verus!
