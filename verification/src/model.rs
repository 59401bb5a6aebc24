use vstd::prelude::*;

verus! {

/// What a filesystem entry is: a plain file, a directory, or a symbolic link.
/// A symbolic link is always treated as a leaf, never followed.
#[derive(Clone, Copy, PartialEq, Eq, Structural, Debug)]
pub enum EntryKind {
    File,
    Directory,
    Symlink,
}

/// One filesystem entry as enumerated by the caller: its display path, its
/// physical identity (device and inode numbers), both size readings, and the
/// entries listed inside it (meaningful only for a directory; never the
/// target of a symbolic link).
pub struct RawEntry {
    pub path: String,
    pub device: u64,
    pub inode: u64,
    pub kind: EntryKind,
    pub apparent_size: u64,
    pub allocated_size: u64,
    pub children: Vec<RawEntry>,
}

/// One displayed entry of the finished forest. `aggregate_size` of a
/// directory covers its whole surviving subtree; for any other kind it
/// equals `own_size`.
pub struct Node {
    pub path: String,
    pub device: u64,
    pub inode: u64,
    pub kind: EntryKind,
    pub own_size: u64,
    pub aggregate_size: u64,
    pub children: Vec<Node>,
}

/// Mathematical model of a `RawEntry`.
pub struct RawM {
    pub path: Seq<char>,
    pub device: u64,
    pub inode: u64,
    pub kind: EntryKind,
    pub apparent_size: u64,
    pub allocated_size: u64,
    pub children: Seq<RawM>,
}

/// Mathematical model of a `Node`.
pub struct NodeM {
    pub path: Seq<char>,
    pub device: u64,
    pub inode: u64,
    pub kind: EntryKind,
    pub own_size: u64,
    pub aggregate_size: u64,
    pub children: Seq<NodeM>,
}

pub open spec fn raw_view(e: RawEntry) -> RawM
    decreases e,
{
    RawM {
        path: e.path@,
        device: e.device,
        inode: e.inode,
        kind: e.kind,
        apparent_size: e.apparent_size,
        allocated_size: e.allocated_size,
        children: Seq::new(
            e.children@.len(),
            |i: int|
                if 0 <= i < e.children@.len() {
                    raw_view(e.children@[i])
                } else {
                    arbitrary()
                },
        ),
    }
}

pub open spec fn node_view(n: Node) -> NodeM
    decreases n,
{
    NodeM {
        path: n.path@,
        device: n.device,
        inode: n.inode,
        kind: n.kind,
        own_size: n.own_size,
        aggregate_size: n.aggregate_size,
        children: Seq::new(
            n.children@.len(),
            |i: int|
                if 0 <= i < n.children@.len() {
                    node_view(n.children@[i])
                } else {
                    arbitrary()
                },
        ),
    }
}

pub open spec fn raws_view(s: Seq<RawEntry>) -> Seq<RawM> {
    Seq::new(s.len(), |i: int| if 0 <= i < s.len() { raw_view(s[i]) } else { arbitrary() })
}

pub open spec fn nodes_view(s: Seq<Node>) -> Seq<NodeM> {
    Seq::new(s.len(), |i: int| if 0 <= i < s.len() { node_view(s[i]) } else { arbitrary() })
}

pub open spec fn opt_view(r: Option<Node>) -> Option<NodeM> {
    match r {
        Some(n) => Some(node_view(n)),
        None => None,
    }
}

/// The physical identity of an entry: two entries with the same pair are the
/// same physical object (hard links, or one path reached twice).
pub open spec fn rid(e: RawM) -> (u64, u64) {
    (e.device, e.inode)
}

pub open spec fn nid(n: NodeM) -> (u64, u64) {
    (n.device, n.inode)
}

/// The size attributed to the entry itself under the run-wide size mode.
pub open spec fn own_of(e: RawM, apparent: bool) -> u64 {
    if apparent {
        e.apparent_size
    } else {
        e.allocated_size
    }
}

/// Addition on byte counts saturates at the largest representable count.
pub open spec fn clamp_u64(x: int) -> u64 {
    if x > u64::MAX {
        u64::MAX as u64
    } else if x < 0 {
        0u64
    } else {
        x as u64
    }
}

pub open spec fn sum_sizes(s: Seq<NodeM>) -> int
    decreases s.len(),
{
    if s.len() == 0 {
        0
    } else {
        s[0].aggregate_size + sum_sizes(s.drop_first())
    }
}

/// Well-formedness of a finished node: a directory's aggregate size is
/// exactly its own size plus the sum of its children's aggregate sizes
/// (saturating), recomputable from the tree itself; anything that is not a
/// directory is a leaf whose aggregate size is its own size.
pub open spec fn node_wf(n: NodeM) -> bool
    decreases n,
{
    &&& (n.kind is Directory ==> n.aggregate_size == clamp_u64(
        n.own_size + sum_sizes(n.children),
    ))
    &&& (!(n.kind is Directory) ==> n.children.len() == 0 && n.aggregate_size == n.own_size)
    &&& forall|i: int| 0 <= i < n.children.len() ==> node_wf(#[trigger] n.children[i])
}

pub open spec fn forest_wf(s: Seq<NodeM>) -> bool {
    forall|i: int| 0 <= i < s.len() ==> node_wf(#[trigger] s[i])
}

/// All physical identities in a tree, in visiting order.
pub open spec fn tree_ids(n: NodeM) -> Seq<(u64, u64)>
    decreases n, 0int,
{
    seq![nid(n)] + list_ids(n.children)
}

pub open spec fn list_ids(s: Seq<NodeM>) -> Seq<(u64, u64)>
    decreases s, 1int,
{
    if s.len() == 0 {
        Seq::empty()
    } else {
        tree_ids(s[0]) + list_ids(s.drop_first())
    }
}

pub proof fn lemma_sum_sizes_nonneg(s: Seq<NodeM>)
    ensures
        sum_sizes(s) >= 0,
    decreases s.len(),
{
    if s.len() > 0 {
        lemma_sum_sizes_nonneg(s.drop_first());
    }
}

pub proof fn lemma_sum_sizes_push(s: Seq<NodeM>, x: NodeM)
    ensures
        sum_sizes(s.push(x)) == sum_sizes(s) + x.aggregate_size,
    decreases s.len(),
{
    if s.len() == 0 {
        assert(s.push(x)[0] == x);
        assert(s.push(x).drop_first() =~= Seq::<NodeM>::empty());
        assert(sum_sizes(s.push(x).drop_first()) == 0);
        assert(sum_sizes(s.push(x)) == x.aggregate_size + 0);
        assert(sum_sizes(s) == 0);
    } else {
        assert(s.push(x)[0] == s[0]);
        assert(s.push(x).drop_first() =~= s.drop_first().push(x));
        lemma_sum_sizes_push(s.drop_first(), x);
        assert(sum_sizes(s.push(x)) == s[0].aggregate_size + sum_sizes(s.drop_first().push(x)));
        assert(sum_sizes(s.push(x)) == s[0].aggregate_size + sum_sizes(s.drop_first())
            + x.aggregate_size);
        assert(sum_sizes(s) == s[0].aggregate_size + sum_sizes(s.drop_first()));
    }
}

/// Saturating addition of byte counts.
pub fn sat_add(a: u64, b: u64) -> (r: u64)
    ensures
        r == clamp_u64(a + b),
{
    if a > u64::MAX - b {
        u64::MAX
    } else {
        a + b
    }
}

} // verus!
