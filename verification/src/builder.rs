use vstd::prelude::*;

verus! {

use crate::model::{
    RawEntry, RawM, Node, NodeM, EntryKind, raw_view, node_view, raws_view, nodes_view, opt_view,
    rid, own_of, clamp_u64, sum_sizes, sat_add, lemma_sum_sizes_nonneg, lemma_sum_sizes_push,
    forest_wf, list_ids,
};
use crate::tracker::IdentityTracker;
use crate::laws::lemma_build_list_props;

/// What visiting one entry yields, starting from a given set of already
/// observed identities: the materialized node, if any, and the grown set.
/// An entry whose identity was already observed is skipped whole: no node,
/// no size, no recursion. A directory is recursed into; anything else is a
/// leaf, so a symbolic link is never followed.
pub open spec fn build_entry(e: RawM, seen: Set<(u64, u64)>, apparent: bool) -> (
    Option<NodeM>,
    Set<(u64, u64)>,
)
    decreases e, 0int,
{
    if seen.contains(rid(e)) {
        (None, seen)
    } else if e.kind is Directory {
        let r = build_list(e.children, seen.insert(rid(e)), apparent);
        (
            Some(
                NodeM {
                    path: e.path,
                    device: e.device,
                    inode: e.inode,
                    kind: e.kind,
                    own_size: own_of(e, apparent),
                    aggregate_size: clamp_u64(own_of(e, apparent) + sum_sizes(r.0)),
                    children: r.0,
                },
            ),
            r.1,
        )
    } else {
        (
            Some(
                NodeM {
                    path: e.path,
                    device: e.device,
                    inode: e.inode,
                    kind: e.kind,
                    own_size: own_of(e, apparent),
                    aggregate_size: own_of(e, apparent),
                    children: Seq::empty(),
                },
            ),
            seen.insert(rid(e)),
        )
    }
}

/// Visits a listing left to right, threading the observed set through, and
/// keeps the surviving nodes in order.
pub open spec fn build_list(es: Seq<RawM>, seen: Set<(u64, u64)>, apparent: bool) -> (
    Seq<NodeM>,
    Set<(u64, u64)>,
)
    decreases es, 1int,
{
    if es.len() == 0 {
        (Seq::empty(), seen)
    } else {
        let f = build_entry(es[0], seen, apparent);
        let r = build_list(es.drop_first(), f.1, apparent);
        (
            match f.0 {
                Some(n) => seq![n] + r.0,
                None => r.0,
            },
            r.1,
        )
    }
}

pub proof fn lemma_clamp_add(a: int, b: u64)
    requires
        a >= 0,
    ensures
        clamp_u64(clamp_u64(a) + b) == clamp_u64(a + b),
{
}

/// Visiting a listing extended by one more entry first visits the prefix,
/// then the new entry, from the set the prefix left behind.
pub proof fn lemma_build_list_push(es: Seq<RawM>, x: RawM, seen: Set<(u64, u64)>, apparent: bool)
    ensures
        ({
            let whole = build_list(es.push(x), seen, apparent);
            let pre = build_list(es, seen, apparent);
            let last = build_entry(x, pre.1, apparent);
            whole.1 == last.1 && whole.0 == (match last.0 {
                Some(n) => pre.0.push(n),
                None => pre.0,
            })
        }),
    decreases es.len(),
{
    reveal_with_fuel(build_list, 3);
    if es.len() == 0 {
        assert(es.push(x)[0] == x);
        assert(es.push(x).drop_first() =~= Seq::<RawM>::empty());
        let last = build_entry(x, seen, apparent);
        match last.0 {
            Some(n) => {
                assert(seq![n] + Seq::<NodeM>::empty() =~= Seq::<NodeM>::empty().push(n));
            },
            None => {},
        }
    } else {
        assert(es.push(x)[0] == es[0]);
        assert(es.push(x).drop_first() =~= es.drop_first().push(x));
        let f = build_entry(es[0], seen, apparent);
        lemma_build_list_push(es.drop_first(), x, f.1, apparent);
        let pre_rest = build_list(es.drop_first(), f.1, apparent);
        let last = build_entry(x, pre_rest.1, apparent);
        match f.0 {
            Some(n0) => {
                match last.0 {
                    Some(nl) => {
                        assert(seq![n0] + pre_rest.0.push(nl) =~= (seq![n0] + pre_rest.0).push(
                            nl,
                        ));
                    },
                    None => {},
                }
            },
            None => {},
        }
    }
}

/// Builds the tree for one entry, consulting and growing the shared tracker.
/// Returns `None` exactly when the entry's identity was already observed.
/// Of several paths to one physical object, the one observed first is the
/// one shown; later sightings are skipped whole.
pub fn build(e: &RawEntry, tracker: &mut IdentityTracker, apparent: bool) -> (r: Option<Node>)
    ensures
        opt_view(r) == build_entry(raw_view(*e), old(tracker)@, apparent).0,
        final(tracker)@ == build_entry(raw_view(*e), old(tracker)@, apparent).1,
        r is Some <==> !old(tracker)@.contains((e.device, e.inode)),
    decreases *e,
{
    let ghost em = raw_view(*e);
    proof {
        assert(rid(em) == (e.device, e.inode));
    }
    let fresh = tracker.observe(e.device, e.inode);
    if !fresh {
        proof {
            assert(old(tracker)@.insert((e.device, e.inode)) =~= old(tracker)@);
        }
        return None;
    }
    let own = if apparent {
        e.apparent_size
    } else {
        e.allocated_size
    };
    if !matches!(e.kind, EntryKind::Directory) {
        let n = Node {
            path: e.path.clone(),
            device: e.device,
            inode: e.inode,
            kind: e.kind,
            own_size: own,
            aggregate_size: own,
            children: Vec::new(),
        };
        proof {
            assert(node_view(n).children =~= Seq::<NodeM>::empty());
            assert(node_view(n) == build_entry(em, old(tracker)@, apparent).0->Some_0);
        }
        return Some(n);
    }
    let ghost seen1 = old(tracker)@.insert((e.device, e.inode));
    let ghost craws = em.children;
    proof {
        assert(craws.len() == e.children@.len());
        assert(build_list(craws.take(0), seen1, apparent).0 =~= Seq::<NodeM>::empty());
        assert(craws.take(0) =~= Seq::<RawM>::empty());
        assert(nodes_view(Seq::<Node>::empty()) =~= Seq::<NodeM>::empty());
    }
    let mut kids: Vec<Node> = Vec::new();
    let mut agg: u64 = own;
    let mut i: usize = 0;
    while i < e.children.len()
        invariant
            0 <= i <= e.children@.len(),
            craws == raw_view(*e).children,
            em == raw_view(*e),
            craws.len() == e.children@.len(),
            own == own_of(em, apparent),
            nodes_view(kids@) == build_list(craws.take(i as int), seen1, apparent).0,
            tracker@ == build_list(craws.take(i as int), seen1, apparent).1,
            agg == clamp_u64(own + sum_sizes(nodes_view(kids@))),
        decreases e.children@.len() - i,
    {
        let child = &e.children[i];
        proof {
            assert(craws[i as int] == raw_view(e.children@[i as int]));
            assert(decreases_to!(*e => e.children@[i as int]));
        }
        let ghost prev_kids = kids@;
        let ghost prev_seen = tracker@;
        let r = build(child, tracker, apparent);
        proof {
            assert(craws.take(i + 1).drop_last() =~= craws.take(i as int));
            assert(craws.take(i + 1) =~= craws.take(i as int).push(craws[i as int]));
            lemma_build_list_push(craws.take(i as int), craws[i as int], seen1, apparent);
        }
        match r {
            Some(n) => {
                let child_agg = n.aggregate_size;
                proof {
                    lemma_sum_sizes_nonneg(nodes_view(prev_kids));
                    lemma_clamp_add(own + sum_sizes(nodes_view(prev_kids)), child_agg);
                }
                agg = sat_add(agg, child_agg);
                kids.push(n);
                proof {
                    assert(kids@ == prev_kids.push(n));
                    assert(nodes_view(kids@) =~= nodes_view(prev_kids).push(node_view(n))) by {
                        assert forall|k: int| 0 <= k < kids@.len() implies nodes_view(kids@)[k]
                            == nodes_view(prev_kids).push(node_view(n))[k] by {
                            if k < prev_kids.len() {
                                assert(kids@[k] == prev_kids[k]);
                            } else {
                                assert(kids@[k] == n);
                            }
                        }
                    }
                    lemma_sum_sizes_push(nodes_view(prev_kids), node_view(n));
                }
            },
            None => {},
        }
        i += 1;
    }
    proof {
        assert(craws.take(craws.len() as int) =~= craws);
    }
    let n = Node {
        path: e.path.clone(),
        device: e.device,
        inode: e.inode,
        kind: e.kind,
        own_size: own,
        aggregate_size: agg,
        children: kids,
    };
    proof {
        assert(node_view(n).children =~= nodes_view(n.children@)) by {
            assert forall|k: int| 0 <= k < n.children@.len() implies node_view(n).children[k]
                == nodes_view(n.children@)[k] by {}
        }
        assert(node_view(n) == build_entry(em, old(tracker)@, apparent).0->Some_0);
    }
    Some(n)
}

/// Builds the whole forest for the given roots, in order, with one shared
/// tracker spanning all of them, starting from nothing observed.
pub fn build_forest(roots: &Vec<RawEntry>, apparent: bool) -> (r: Vec<Node>)
    ensures
        nodes_view(r@) == build_list(raws_view(roots@), Set::empty(), apparent).0,
        forest_wf(nodes_view(r@)),
        list_ids(nodes_view(r@)).no_duplicates(),
{
    proof {
        lemma_build_list_props(raws_view(roots@), Set::empty(), apparent);
    }
    let mut tracker = IdentityTracker::new();
    let ghost rws = raws_view(roots@);
    proof {
        assert(rws.take(0) =~= Seq::<RawM>::empty());
        assert(nodes_view(Seq::<Node>::empty()) =~= Seq::<NodeM>::empty());
        assert(build_list(rws.take(0), Set::empty(), apparent).0 =~= Seq::<NodeM>::empty());
    }
    let mut out: Vec<Node> = Vec::new();
    let mut i: usize = 0;
    while i < roots.len()
        invariant
            0 <= i <= roots@.len(),
            rws == raws_view(roots@),
            rws.len() == roots@.len(),
            nodes_view(out@) == build_list(rws.take(i as int), Set::empty(), apparent).0,
            tracker@ == build_list(rws.take(i as int), Set::empty(), apparent).1,
        decreases roots@.len() - i,
    {
        let ghost prev_out = out@;
        proof {
            assert(rws[i as int] == raw_view(roots@[i as int]));
        }
        let r = build(&roots[i], &mut tracker, apparent);
        proof {
            assert(rws.take(i + 1) =~= rws.take(i as int).push(rws[i as int]));
            lemma_build_list_push(rws.take(i as int), rws[i as int], Set::empty(), apparent);
        }
        match r {
            Some(n) => {
                out.push(n);
                proof {
                    assert(out@ == prev_out.push(n));
                    assert(nodes_view(out@) =~= nodes_view(prev_out).push(node_view(n))) by {
                        assert forall|k: int| 0 <= k < out@.len() implies nodes_view(out@)[k]
                            == nodes_view(prev_out).push(node_view(n))[k] by {
                            if k < prev_out.len() {
                                assert(out@[k] == prev_out[k]);
                            } else {
                                assert(out@[k] == n);
                            }
                        }
                    }
                }
            },
            None => {},
        }
        i += 1;
    }
    proof {
        assert(rws.take(rws.len() as int) =~= rws);
    }
    out
}

} // verus!
