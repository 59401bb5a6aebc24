use vstd::prelude::*;

verus! {

use crate::model::{
    RawM, NodeM, rid, nid, own_of, sum_sizes, node_wf, forest_wf, tree_ids, list_ids,
    lemma_sum_sizes_nonneg,
};
use crate::builder::{build_entry, build_list};

proof fn lemma_concat_contains(a: Seq<(u64, u64)>, b: Seq<(u64, u64)>, x: (u64, u64))
    ensures
        (a + b).contains(x) <==> (a.contains(x) || b.contains(x)),
{
    if a.contains(x) {
        let i = choose|i: int| 0 <= i < a.len() && a[i] == x;
        assert((a + b)[i] == x);
    }
    if b.contains(x) {
        let i = choose|i: int| 0 <= i < b.len() && b[i] == x;
        assert((a + b)[a.len() + i] == x);
    }
    if (a + b).contains(x) {
        let i = choose|i: int| 0 <= i < (a + b).len() && (a + b)[i] == x;
        if i < a.len() {
            assert(a[i] == x);
        } else {
            assert(b[i - a.len()] == x);
        }
    }
}

proof fn lemma_concat_no_dup(a: Seq<(u64, u64)>, b: Seq<(u64, u64)>)
    requires
        a.no_duplicates(),
        b.no_duplicates(),
        forall|x: (u64, u64)| a.contains(x) ==> !b.contains(x),
    ensures
        (a + b).no_duplicates(),
{
    assert forall|i: int, j: int|
        0 <= i < (a + b).len() && 0 <= j < (a + b).len() && i != j implies (a + b)[i] != (a
        + b)[j] by {
        if i < a.len() && j < a.len() {
        } else if i >= a.len() && j >= a.len() {
        } else if i < a.len() {
            assert(a.contains(a[i]));
            assert(b.contains(b[j - a.len()]));
        } else {
            assert(a.contains(a[j]));
            assert(b.contains(b[i - a.len()]));
        }
    }
}

/// What one visit guarantees: the observed set only grows; a skipped entry
/// changes nothing; a materialized node is well formed, carries the entry's
/// own path, kind and identity, and holds each physical identity at most
/// once, every one of them newly observed during this very visit.
pub proof fn lemma_build_entry_props(e: RawM, seen: Set<(u64, u64)>, apparent: bool)
    ensures
        ({
            let r = build_entry(e, seen, apparent);
            &&& seen.subset_of(r.1)
            &&& (r.0 is None ==> r.1 == seen)
            &&& (r.0 is Some <==> !seen.contains(rid(e)))
            &&& (r.0 is Some ==> {
                let n = r.0->Some_0;
                &&& node_wf(n)
                &&& n.path == e.path
                &&& n.kind == e.kind
                &&& nid(n) == rid(e)
                &&& n.own_size == own_of(e, apparent)
                &&& tree_ids(n).no_duplicates()
                &&& forall|id: (u64, u64)|
                    #[trigger] tree_ids(n).contains(id) ==> !seen.contains(id) && r.1.contains(
                        id,
                    )
                &&& tree_ids(n).contains(rid(e))
            })
        }),
    decreases e, 0int,
{
    let r = build_entry(e, seen, apparent);
    if seen.contains(rid(e)) {
    } else if e.kind is Directory {
        let seen1 = seen.insert(rid(e));
        lemma_build_list_props(e.children, seen1, apparent);
        let kids = build_list(e.children, seen1, apparent).0;
        let n = r.0->Some_0;
        assert(n.children == kids);
        assert(node_wf(n));
        assert(tree_ids(n) == seq![rid(e)] + list_ids(kids));
        assert(!list_ids(kids).contains(rid(e)));
        assert(seq![rid(e)].no_duplicates());
        assert forall|x: (u64, u64)| seq![rid(e)].contains(x) implies !list_ids(kids).contains(
            x,
        ) by {
            assert(x == rid(e));
        }
        lemma_concat_no_dup(seq![rid(e)], list_ids(kids));
        lemma_concat_contains(seq![rid(e)], list_ids(kids), rid(e));
        assert(seq![rid(e)][0] == rid(e));
        assert forall|id: (u64, u64)| tree_ids(n).contains(id) implies !seen.contains(id)
            && r.1.contains(id) by {
            lemma_concat_contains(seq![rid(e)], list_ids(kids), id);
            if id == rid(e) {
                assert(seen1.contains(id));
            } else {
                assert(list_ids(kids).contains(id));
            }
        }
    } else {
        let n = r.0->Some_0;
        assert(list_ids(n.children) =~= Seq::<(u64, u64)>::empty());
        assert(tree_ids(n) =~= seq![rid(e)]);
        assert(tree_ids(n)[0] == rid(e));
        assert forall|id: (u64, u64)| tree_ids(n).contains(id) implies !seen.contains(id)
            && r.1.contains(id) by {
            assert(id == rid(e));
        }
    }
}

/// The same for a listing: surviving trees are well formed, no physical
/// identity appears twice anywhere across them, all their identities are
/// newly observed, and the identity of every listed entry ends up observed
/// whether it survived or was skipped.
pub proof fn lemma_build_list_props(es: Seq<RawM>, seen: Set<(u64, u64)>, apparent: bool)
    ensures
        ({
            let r = build_list(es, seen, apparent);
            &&& seen.subset_of(r.1)
            &&& forest_wf(r.0)
            &&& list_ids(r.0).no_duplicates()
            &&& forall|id: (u64, u64)|
                #[trigger] list_ids(r.0).contains(id) ==> !seen.contains(id) && r.1.contains(id)
            &&& forall|i: int| 0 <= i < es.len() ==> r.1.contains(rid(#[trigger] es[i]))
        }),
    decreases es, 1int,
{
    let r = build_list(es, seen, apparent);
    if es.len() == 0 {
        assert(list_ids(r.0) =~= Seq::<(u64, u64)>::empty());
    } else {
        let f = build_entry(es[0], seen, apparent);
        lemma_build_entry_props(es[0], seen, apparent);
        lemma_build_list_props(es.drop_first(), f.1, apparent);
        let rest = build_list(es.drop_first(), f.1, apparent);
        assert(r.1 == rest.1);
        match f.0 {
            Some(n0) => {
                assert(r.0 == seq![n0] + rest.0);
                assert((seq![n0] + rest.0)[0] == n0);
                assert((seq![n0] + rest.0).drop_first() =~= rest.0);
                assert(list_ids(r.0) == tree_ids(n0) + list_ids(rest.0));
                assert forall|x: (u64, u64)| tree_ids(n0).contains(x) implies !list_ids(
                    rest.0,
                ).contains(x) by {
                    assert(f.1.contains(x));
                }
                lemma_concat_no_dup(tree_ids(n0), list_ids(rest.0));
                assert(forest_wf(r.0)) by {
                    assert forall|i: int| 0 <= i < r.0.len() implies node_wf(
                        #[trigger] r.0[i],
                    ) by {
                        if i == 0 {
                            assert(r.0[0] == n0);
                        } else {
                            assert(r.0[i] == rest.0[i - 1]);
                        }
                    }
                }
                assert forall|id: (u64, u64)| list_ids(r.0).contains(id) implies !seen.contains(
                    id,
                ) && r.1.contains(id) by {
                    lemma_concat_contains(tree_ids(n0), list_ids(rest.0), id);
                    if tree_ids(n0).contains(id) {
                        assert(f.1.subset_of(rest.1));
                    } else {
                        assert(list_ids(rest.0).contains(id));
                        assert(seen.subset_of(f.1));
                    }
                }
                assert forall|i: int| 0 <= i < es.len() implies r.1.contains(
                    rid(#[trigger] es[i]),
                ) by {
                    if i == 0 {
                        assert(tree_ids(n0).contains(rid(es[0])));
                        assert(f.1.contains(rid(es[0])));
                        assert(f.1.subset_of(rest.1));
                    } else {
                        assert(es.drop_first()[i - 1] == es[i]);
                    }
                }
            },
            None => {
                assert(r.0 == rest.0);
                assert(f.1 == seen);
                assert forall|i: int| 0 <= i < es.len() implies r.1.contains(
                    rid(#[trigger] es[i]),
                ) by {
                    if i == 0 {
                        assert(seen.contains(rid(es[0])));
                        assert(seen.subset_of(rest.1));
                    } else {
                        assert(es.drop_first()[i - 1] == es[i]);
                    }
                }
            },
        }
    }
}

/// No double counting: across the whole forest built from any roots, no two
/// nodes share a physical identity, and every tree is well formed, so each
/// physical object is counted in at most one aggregate chain.
pub proof fn lemma_no_double_counting(roots: Seq<RawM>, apparent: bool)
    ensures
        list_ids(build_list(roots, Set::empty(), apparent).0).no_duplicates(),
        forest_wf(build_list(roots, Set::empty(), apparent).0),
{
    lemma_build_list_props(roots, Set::empty(), apparent);
}

/// Cycle safety: whatever is not a directory — a symbolic link in
/// particular — is a leaf of the finished tree, never recursed into.
pub proof fn lemma_symlink_is_leaf(n: NodeM)
    requires
        node_wf(n),
        !(n.kind is Directory),
    ensures
        n.children.len() == 0,
        n.aggregate_size == n.own_size,
{
}

/// Aggregation correctness: a well-formed directory's aggregate size is its
/// own size plus the sum of its children's aggregate sizes whenever that sum
/// is representable, and never falls below its own size.
pub proof fn lemma_aggregation_exact(n: NodeM)
    requires
        node_wf(n),
        n.kind is Directory,
        n.own_size + sum_sizes(n.children) <= u64::MAX,
    ensures
        n.aggregate_size == n.own_size + sum_sizes(n.children),
{
    lemma_sum_sizes_nonneg(n.children);
}

pub proof fn lemma_aggregate_at_least_own(n: NodeM)
    requires
        node_wf(n),
    ensures
        n.aggregate_size >= n.own_size,
{
    if n.kind is Directory {
        lemma_sum_sizes_nonneg(n.children);
    }
}

/// Root-overlap idempotence: when one root's physical identity was already
/// observed while building an earlier root — a nested root, or the same
/// root given twice — the forest for `[a, b, a]` is the forest for `[a]`.
pub proof fn lemma_root_overlap(a: RawM, b: RawM, apparent: bool)
    requires
        build_entry(a, Set::empty(), apparent).1.contains(rid(b)),
    ensures
        build_list(seq![a, b, a], Set::empty(), apparent).0 == build_list(
            seq![a],
            Set::empty(),
            apparent,
        ).0,
{
    reveal_with_fuel(build_list, 5);
    let f = build_entry(a, Set::empty(), apparent);
    lemma_build_entry_props(a, Set::empty(), apparent);
    assert(f.1.contains(rid(a)));
    let s3 = seq![a, b, a];
    assert(s3[0] == a);
    assert(s3.drop_first() =~= seq![b, a]);
    assert(seq![b, a][0] == b);
    assert(seq![b, a].drop_first() =~= seq![a]);
    assert(seq![a][0] == a);
    assert(seq![a].drop_first() =~= Seq::<RawM>::empty());
    let fb = build_entry(b, f.1, apparent);
    assert(fb.0 is None && fb.1 == f.1);
    let fa2 = build_entry(a, f.1, apparent);
    assert(fa2.0 is None && fa2.1 == f.1);
}

/// Every immediate child of a freshly visited directory has its identity
/// observed by the end of that visit; with `lemma_root_overlap` this is what
/// collapses a root nested one level inside an earlier root.
pub proof fn lemma_children_observed(e: RawM, seen: Set<(u64, u64)>, apparent: bool, i: int)
    requires
        !seen.contains(rid(e)),
        e.kind is Directory,
        0 <= i < e.children.len(),
    ensures
        build_entry(e, seen, apparent).1.contains(rid(e.children[i])),
{
    lemma_build_list_props(e.children, seen.insert(rid(e)), apparent);
}

} // verus!
