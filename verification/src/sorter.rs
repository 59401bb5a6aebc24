use vstd::prelude::*;

verus! {

use vstd::seq_lib::lemma_multiset_commutative;
use crate::model::{Node, NodeM, node_view, nodes_view, node_wf, forest_wf, sum_sizes};

/// Lexicographic order on paths, by code point; the deterministic tie-break.
pub open spec fn lex_le(s: Seq<char>, t: Seq<char>) -> bool
    decreases s.len(),
{
    if s.len() == 0 {
        true
    } else if t.len() == 0 {
        false
    } else if s[0] < t[0] {
        true
    } else if t[0] < s[0] {
        false
    } else {
        lex_le(s.drop_first(), t.drop_first())
    }
}

/// The default sibling order: larger aggregate size first, ties broken by
/// path. Reverse mode is its exact mirror image.
pub open spec fn le_default(a: NodeM, b: NodeM) -> bool {
    a.aggregate_size > b.aggregate_size || (a.aggregate_size == b.aggregate_size && lex_le(
        a.path,
        b.path,
    ))
}

pub open spec fn le_order(a: NodeM, b: NodeM, reverse: bool) -> bool {
    if reverse {
        le_default(b, a)
    } else {
        le_default(a, b)
    }
}

pub open spec fn sorted_by(s: Seq<NodeM>, reverse: bool) -> bool {
    forall|i: int, j: int| 0 <= i < j < s.len() ==> le_order(s[i], s[j], reverse)
}

pub proof fn lemma_lex_le_total(s: Seq<char>, t: Seq<char>)
    ensures
        lex_le(s, t) || lex_le(t, s),
    decreases s.len(),
{
    if s.len() > 0 && t.len() > 0 && !(s[0] < t[0]) && !(t[0] < s[0]) {
        lemma_lex_le_total(s.drop_first(), t.drop_first());
    }
}

pub proof fn lemma_lex_le_antisym(s: Seq<char>, t: Seq<char>)
    requires
        lex_le(s, t),
        lex_le(t, s),
    ensures
        s == t,
    decreases s.len(),
{
    if s.len() == 0 {
        assert(t.len() == 0);
        assert(s =~= t);
    } else {
        assert(t.len() > 0);
        if s[0] < t[0] {
            assert(false);
        } else if t[0] < s[0] {
            assert(false);
        } else {
            lemma_lex_le_antisym(s.drop_first(), t.drop_first());
            assert(s[0] == t[0]);
            assert(s.drop_first() == t.drop_first());
            assert(s.len() == t.len());
            assert(s =~= t) by {
                assert forall|i: int| 0 <= i < s.len() implies s[i] == t[i] by {
                    if i > 0 {
                        assert(s.drop_first()[i - 1] == t.drop_first()[i - 1]);
                    }
                }
            }
        }
    }
}

pub proof fn lemma_lex_le_trans(s: Seq<char>, t: Seq<char>, u: Seq<char>)
    requires
        lex_le(s, t),
        lex_le(t, u),
    ensures
        lex_le(s, u),
    decreases s.len(),
{
    if s.len() > 0 && t.len() > 0 && u.len() > 0 && !(s[0] < t[0]) && !(t[0] < s[0]) && !(t[0]
        < u[0]) && !(u[0] < t[0]) {
        lemma_lex_le_trans(s.drop_first(), t.drop_first(), u.drop_first());
    }
}

pub proof fn lemma_le_order_total(a: NodeM, b: NodeM, reverse: bool)
    ensures
        le_order(a, b, reverse) || le_order(b, a, reverse),
{
    lemma_lex_le_total(a.path, b.path);
}

/// Two mutually ordered nodes agree on the whole sort key.
pub proof fn lemma_le_order_antisym(a: NodeM, b: NodeM, reverse: bool)
    requires
        le_order(a, b, reverse),
        le_order(b, a, reverse),
    ensures
        a.aggregate_size == b.aggregate_size,
        a.path == b.path,
{
    lemma_lex_le_antisym(a.path, b.path);
}

pub proof fn lemma_le_order_trans(a: NodeM, b: NodeM, c: NodeM, reverse: bool)
    requires
        le_order(a, b, reverse),
        le_order(b, c, reverse),
    ensures
        le_order(a, c, reverse),
{
    if a.aggregate_size == b.aggregate_size && b.aggregate_size == c.aggregate_size {
        if reverse {
            lemma_lex_le_trans(c.path, b.path, a.path);
        } else {
            lemma_lex_le_trans(a.path, b.path, c.path);
        }
    }
}

/// Where one node lands in an already ordered run of siblings.
pub open spec fn insert_sorted(x: NodeM, s: Seq<NodeM>, reverse: bool) -> Seq<NodeM>
    decreases s.len(),
{
    if s.len() == 0 {
        seq![x]
    } else if le_order(x, s[0], reverse) {
        seq![x] + s
    } else {
        seq![s[0]] + insert_sorted(x, s.drop_first(), reverse)
    }
}

/// The ordered rearrangement of a run of siblings.
pub open spec fn sort_seq(s: Seq<NodeM>, reverse: bool) -> Seq<NodeM>
    decreases s.len(),
{
    if s.len() == 0 {
        Seq::empty()
    } else {
        insert_sorted(s.last(), sort_seq(s.drop_last(), reverse), reverse)
    }
}

/// Each child's subtree ordered, before the run itself is ordered.
pub open spec fn sort_kids(s: Seq<NodeM>, reverse: bool) -> Seq<NodeM>
    decreases s, 1int,
{
    Seq::new(
        s.len(),
        |i: int|
            if 0 <= i < s.len() {
                sort_node(s[i], reverse)
            } else {
                arbitrary()
            },
    )
}

/// A whole tree with every directory's children ordered, recursively.
pub open spec fn sort_node(n: NodeM, reverse: bool) -> NodeM
    decreases n, 0int,
{
    NodeM {
        path: n.path,
        device: n.device,
        inode: n.inode,
        kind: n.kind,
        own_size: n.own_size,
        aggregate_size: n.aggregate_size,
        children: sort_seq(sort_kids(n.children, reverse), reverse),
    }
}

/// The forest with each tree sorted; the trees themselves stay in argument
/// order.
pub open spec fn sort_forest(s: Seq<NodeM>, reverse: bool) -> Seq<NodeM> {
    Seq::new(
        s.len(),
        |i: int|
            if 0 <= i < s.len() {
                sort_node(s[i], reverse)
            } else {
                arbitrary()
            },
    )
}

pub proof fn lemma_insert_sorted_props(x: NodeM, s: Seq<NodeM>, reverse: bool)
    requires
        sorted_by(s, reverse),
    ensures
        sorted_by(insert_sorted(x, s, reverse), reverse),
        insert_sorted(x, s, reverse).to_multiset() == s.to_multiset().insert(x),
        insert_sorted(x, s, reverse).len() == s.len() + 1,
    decreases s.len(),
{
    broadcast use vstd::seq_lib::group_to_multiset_ensures;

    let r = insert_sorted(x, s, reverse);
    if s.len() == 0 {
        assert(seq![x] =~= Seq::<NodeM>::empty().push(x));
        assert(s =~= Seq::<NodeM>::empty());
        assert(sorted_by(r, reverse));
    } else if le_order(x, s[0], reverse) {
        assert(r == seq![x] + s);
        lemma_multiset_commutative(seq![x], s);
        assert(seq![x].to_multiset() == Seq::<NodeM>::empty().push(x).to_multiset()) by {
            assert(seq![x] =~= Seq::<NodeM>::empty().push(x));
        }
        assert(r.to_multiset() =~= s.to_multiset().insert(x));
        assert forall|i: int, j: int| 0 <= i < j < r.len() implies le_order(
            r[i],
            r[j],
            reverse,
        ) by {
            if i == 0 {
                assert(r[j] == s[j - 1]);
                if j > 1 {
                    lemma_le_order_trans(x, s[0], s[j - 1], reverse);
                }
            } else {
                assert(r[i] == s[i - 1] && r[j] == s[j - 1]);
            }
        }
    } else {
        let tail = insert_sorted(x, s.drop_first(), reverse);
        assert(sorted_by(s.drop_first(), reverse)) by {
            assert forall|i: int, j: int|
                0 <= i < j < s.drop_first().len() implies le_order(
                s.drop_first()[i],
                s.drop_first()[j],
                reverse,
            ) by {
                assert(s.drop_first()[i] == s[i + 1] && s.drop_first()[j] == s[j + 1]);
            }
        }
        lemma_insert_sorted_props(x, s.drop_first(), reverse);
        assert(r == seq![s[0]] + tail);
        lemma_multiset_commutative(seq![s[0]], tail);
        lemma_multiset_commutative(seq![s[0]], s.drop_first());
        assert(seq![s[0]] + s.drop_first() =~= s);
        assert(seq![s[0]].to_multiset() == Seq::<NodeM>::empty().push(s[0]).to_multiset()) by {
            assert(seq![s[0]] =~= Seq::<NodeM>::empty().push(s[0]));
        }
        assert(r.to_multiset() =~= s.to_multiset().insert(x));
        // every element of the tail is bounded below by s[0]
        lemma_le_order_total(x, s[0], reverse);
        assert forall|i: int, j: int| 0 <= i < j < r.len() implies le_order(
            r[i],
            r[j],
            reverse,
        ) by {
            if i > 0 {
                assert(r[i] == tail[i - 1] && r[j] == tail[j - 1]);
            } else {
                assert(r[j] == tail[j - 1]);
                assert(tail.to_multiset().count(tail[j - 1]) > 0);
                assert(s.drop_first().to_multiset().insert(x).count(tail[j - 1]) > 0);
                if tail[j - 1] == x {
                    assert(le_order(s[0], x, reverse));
                } else {
                    assert(s.drop_first().to_multiset().count(tail[j - 1]) > 0);
                    assert(s.drop_first().contains(tail[j - 1]));
                    let k = choose|k: int|
                        0 <= k < s.drop_first().len() && s.drop_first()[k] == tail[j - 1];
                    assert(s[k + 1] == tail[j - 1]);
                }
            }
        }
    }
}

pub proof fn lemma_sort_seq_props(s: Seq<NodeM>, reverse: bool)
    ensures
        sorted_by(sort_seq(s, reverse), reverse),
        sort_seq(s, reverse).to_multiset() == s.to_multiset(),
        sort_seq(s, reverse).len() == s.len(),
    decreases s.len(),
{
    broadcast use vstd::seq_lib::group_to_multiset_ensures;

    if s.len() > 0 {
        lemma_sort_seq_props(s.drop_last(), reverse);
        lemma_insert_sorted_props(s.last(), sort_seq(s.drop_last(), reverse), reverse);
        assert(s.drop_last().push(s.last()) =~= s);
        assert(s.drop_last().to_multiset().insert(s.last()) == s.to_multiset()) by {
            assert(s.drop_last().push(s.last()).to_multiset() == s.drop_last().to_multiset().insert(
                s.last(),
            ));
        }
    }
}


/// Reversing a run ordered one way orders it the other way.
pub proof fn lemma_reverse_sorted(s: Seq<NodeM>, reverse: bool)
    requires
        sorted_by(s, reverse),
    ensures
        sorted_by(s.reverse(), !reverse),
{
    assert forall|i: int, j: int| 0 <= i < j < s.reverse().len() implies le_order(
        s.reverse()[i],
        s.reverse()[j],
        !reverse,
    ) by {
        assert(s.reverse()[i] == s[s.len() - 1 - i]);
        assert(s.reverse()[j] == s[s.len() - 1 - j]);
        assert(le_order(s[s.len() - 1 - j], s[s.len() - 1 - i], reverse));
    }
}

/// Whether two siblings are indistinguishable to the sorter.
pub open spec fn same_key(a: NodeM, b: NodeM) -> bool {
    a.aggregate_size == b.aggregate_size && a.path == b.path
}

pub open spec fn distinct_keys(s: Seq<NodeM>) -> bool {
    forall|i: int, j: int| 0 <= i < j < s.len() ==> !same_key(s[i], s[j])
}

proof fn lemma_two_indices_count(s: Seq<NodeM>, i: int, j: int)
    requires
        0 <= i < j < s.len(),
        s[i] == s[j],
    ensures
        s.to_multiset().count(s[i]) >= 2,
{
    broadcast use vstd::seq_lib::group_to_multiset_ensures;

    let t = s.remove(j);
    assert(t.to_multiset() == s.to_multiset().remove(s[j]));
    assert(t[i] == s[i]);
    assert(t.contains(s[i]));
    assert(t.to_multiset().count(s[i]) > 0);
}

/// Key distinctness carries over to any rearrangement.
pub proof fn lemma_distinct_keys_perm(s: Seq<NodeM>, t: Seq<NodeM>)
    requires
        distinct_keys(s),
        s.to_multiset() == t.to_multiset(),
    ensures
        distinct_keys(t),
{
    broadcast use vstd::seq_lib::group_to_multiset_ensures;

    assert forall|i: int, j: int| 0 <= i < j < t.len() implies !same_key(t[i], t[j]) by {
        if same_key(t[i], t[j]) {
            if t[i] == t[j] {
                lemma_two_indices_count(t, i, j);
                assert(s.to_multiset().count(t[i]) >= 2);
                assert(s.no_duplicates()) by {
                    assert forall|a: int, b: int|
                        0 <= a < b < s.len() implies s[a] != s[b] by {
                        assert(!same_key(s[a], s[b]));
                    }
                }
                s.lemma_multiset_has_no_duplicates();
                assert(s.to_multiset().contains(t[i]));
            } else {
                assert(t.to_multiset().count(t[i]) > 0) by {
                    assert(t.contains(t[i]));
                }
                assert(t.to_multiset().count(t[j]) > 0) by {
                    assert(t.contains(t[j]));
                }
                assert(s.contains(t[i]));
                assert(s.contains(t[j]));
                let a = choose|a: int| 0 <= a < s.len() && s[a] == t[i];
                let b = choose|b: int| 0 <= b < s.len() && s[b] == t[j];
                assert(a != b);
                if a < b {
                    assert(!same_key(s[a], s[b]));
                } else {
                    assert(!same_key(s[b], s[a]));
                }
            }
        }
    }
}

/// Two runs ordered the same way, holding the same siblings, none of which
/// share a key, are the same run.
proof fn lemma_sorted_unique(s1: Seq<NodeM>, s2: Seq<NodeM>, reverse: bool)
    requires
        sorted_by(s1, reverse),
        sorted_by(s2, reverse),
        s1.to_multiset() == s2.to_multiset(),
        distinct_keys(s1),
    ensures
        s1 == s2,
    decreases s1.len(),
{
    broadcast use vstd::seq_lib::group_to_multiset_ensures;

    assert(s1.to_multiset().len() == s1.len());
    assert(s2.to_multiset().len() == s2.len());
    if s1.len() == 0 {
        assert(s2.len() == 0);
        assert(s1 =~= s2);
    } else {
        assert(s2.len() == s1.len());
        assert(s2.to_multiset().count(s1[0]) > 0) by {
            assert(s1.contains(s1[0]));
        }
        assert(s2.contains(s1[0]));
        let j = choose|j: int| 0 <= j < s2.len() && s2[j] == s1[0];
        assert(s1.to_multiset().count(s2[0]) > 0) by {
            assert(s2.contains(s2[0]));
        }
        assert(s1.contains(s2[0]));
        let i = choose|i: int| 0 <= i < s1.len() && s1[i] == s2[0];
        if i == 0 || j == 0 {
            assert(s1[0] == s2[0]);
        } else {
            assert(le_order(s2[0], s2[j], reverse));
            assert(le_order(s1[0], s1[i], reverse));
            lemma_le_order_antisym(s1[0], s2[0], reverse);
            assert(same_key(s1[0], s1[i]));
            assert(false);
        }
        let t1 = s1.drop_first();
        let t2 = s2.drop_first();
        assert(s1.remove(0) =~= t1);
        assert(s2.remove(0) =~= t2);
        assert(t1.to_multiset() == s1.to_multiset().remove(s1[0]));
        assert(t2.to_multiset() == s2.to_multiset().remove(s2[0]));
        assert(sorted_by(t1, reverse)) by {
            assert forall|a: int, b: int| 0 <= a < b < t1.len() implies le_order(
                t1[a],
                t1[b],
                reverse,
            ) by {
                assert(t1[a] == s1[a + 1] && t1[b] == s1[b + 1]);
            }
        }
        assert(sorted_by(t2, reverse)) by {
            assert forall|a: int, b: int| 0 <= a < b < t2.len() implies le_order(
                t2[a],
                t2[b],
                reverse,
            ) by {
                assert(t2[a] == s2[a + 1] && t2[b] == s2[b + 1]);
            }
        }
        assert(distinct_keys(t1)) by {
            assert forall|a: int, b: int| 0 <= a < b < t1.len() implies !same_key(
                t1[a],
                t1[b],
            ) by {
                assert(t1[a] == s1[a + 1] && t1[b] == s1[b + 1]);
            }
        }
        lemma_sorted_unique(t1, t2, reverse);
        assert(s1 =~= s2) by {
            assert forall|k: int| 0 <= k < s1.len() implies s1[k] == s2[k] by {
                if k > 0 {
                    assert(t1[k - 1] == t2[k - 1]);
                }
            }
        }
    }
}

/// Reverse is an order involution on siblings: ordering a run for reverse
/// mode and then reversing it recovers exactly the default order, whenever
/// no two siblings share both aggregate size and path.
pub proof fn lemma_reverse_involution(s: Seq<NodeM>)
    requires
        distinct_keys(s),
    ensures
        sort_seq(s, true).reverse() == sort_seq(s, false),
{
    lemma_sort_seq_props(s, true);
    lemma_sort_seq_props(s, false);
    lemma_reverse_sorted(sort_seq(s, true), true);
    sort_seq(s, true).lemma_reverse_to_multiset();
    lemma_distinct_keys_perm(s, sort_seq(s, false));
    lemma_sorted_unique(sort_seq(s, false), sort_seq(s, true).reverse(), false);
}


/// Lexicographic comparison of two path strings.
fn lex_le_exec(a: &str, b: &str) -> (r: bool)
    ensures
        r == lex_le(a@, b@),
{
    let alen = a.unicode_len();
    let blen = b.unicode_len();
    let mut i: usize = 0;
    proof {
        assert(a@.skip(0) =~= a@);
        assert(b@.skip(0) =~= b@);
    }
    while i < alen && i < blen
        invariant
            alen == a@.len(),
            blen == b@.len(),
            0 <= i <= alen,
            0 <= i <= blen,
            lex_le(a@, b@) == lex_le(a@.skip(i as int), b@.skip(i as int)),
        decreases alen - i,
    {
        let ca = a.get_char(i);
        let cb = b.get_char(i);
        proof {
            assert(a@.skip(i as int)[0] == a@[i as int]);
            assert(b@.skip(i as int)[0] == b@[i as int]);
        }
        if (ca as u32) < (cb as u32) {
            proof {
                assert(a@[i as int] < b@[i as int]);
                assert(lex_le(a@.skip(i as int), b@.skip(i as int)));
            }
            return true;
        }
        if (cb as u32) < (ca as u32) {
            proof {
                assert(b@[i as int] < a@[i as int]);
                assert(!lex_le(a@.skip(i as int), b@.skip(i as int)));
            }
            return false;
        }
        proof {
            assert(ca == cb);
            assert(a@.skip(i as int).drop_first() =~= a@.skip(i + 1));
            assert(b@.skip(i as int).drop_first() =~= b@.skip(i + 1));
        }
        i += 1;
    }
    if i < blen {
        proof {
            assert(a@.skip(i as int).len() == 0);
        }
        true
    } else if i < alen {
        proof {
            assert(b@.skip(i as int).len() == 0);
            assert(a@.skip(i as int).len() > 0);
        }
        false
    } else {
        proof {
            assert(a@.skip(i as int).len() == 0);
        }
        true
    }
}

/// The executable sibling order.
fn le_node_exec(a: &Node, b: &Node, reverse: bool) -> (r: bool)
    ensures
        r == le_order(node_view(*a), node_view(*b), reverse),
{
    let (x, y) = if reverse {
        (b, a)
    } else {
        (a, b)
    };
    if x.aggregate_size > y.aggregate_size {
        true
    } else if x.aggregate_size == y.aggregate_size {
        lex_le_exec(x.path.as_str(), y.path.as_str())
    } else {
        false
    }
}

proof fn lemma_insert_sorted_at(x: NodeM, s: Seq<NodeM>, j: int, reverse: bool)
    requires
        0 <= j <= s.len(),
        forall|m: int| 0 <= m < j ==> !le_order(x, #[trigger] s[m], reverse),
        j < s.len() ==> le_order(x, s[j], reverse),
    ensures
        insert_sorted(x, s, reverse) == s.insert(j, x),
    decreases s.len(),
{
    if s.len() == 0 {
        assert(seq![x] =~= s.insert(0, x));
    } else if j == 0 {
        assert(seq![x] + s =~= s.insert(0, x));
    } else {
        assert(!le_order(x, s[0], reverse));
        lemma_insert_sorted_at(x, s.drop_first(), j - 1, reverse);
        assert(forall|m: int|
            0 <= m < j - 1 ==> s.drop_first()[m] == s[m + 1] && !le_order(
                x,
                #[trigger] s.drop_first()[m],
                reverse,
            ));
        assert(seq![s[0]] + s.drop_first().insert(j - 1, x) =~= s.insert(j, x));
    }
}

proof fn lemma_nodes_view_insert(s: Seq<Node>, j: int, x: Node)
    requires
        0 <= j <= s.len(),
    ensures
        nodes_view(s.insert(j, x)) =~= nodes_view(s).insert(j, node_view(x)),
{
    assert forall|k: int| 0 <= k < s.len() + 1 implies nodes_view(s.insert(j, x))[k]
        == nodes_view(s).insert(j, node_view(x))[k] by {
        if k < j {
            assert(s.insert(j, x)[k] == s[k]);
        } else if k == j {
            assert(s.insert(j, x)[k] == x);
        } else {
            assert(s.insert(j, x)[k] == s[k - 1]);
        }
    }
}

/// Orders one run of siblings.
fn sort_vec(v: Vec<Node>, reverse: bool) -> (r: Vec<Node>)
    ensures
        nodes_view(r@) == sort_seq(nodes_view(v@), reverse),
{
    let ghost vm = nodes_view(v@);
    let mut rem = v;
    let mut out: Vec<Node> = Vec::new();
    let ghost mut k: int = 0;
    proof {
        assert(vm.take(0) =~= Seq::<NodeM>::empty());
        assert(nodes_view(out@) =~= Seq::<NodeM>::empty());
    }
    while rem.len() > 0
        invariant
            0 <= k <= vm.len(),
            k + rem@.len() == vm.len(),
            forall|m: int| 0 <= m < rem@.len() ==> node_view(#[trigger] rem@[m]) == vm[k + m],
            nodes_view(out@) == sort_seq(vm.take(k), reverse),
            out@.len() == k,
        decreases rem@.len(),
    {
        let ghost prem = rem@;
        let x = rem.remove(0);
        proof {
            assert(node_view(x) == vm[k]);
            assert forall|m: int| 0 <= m < rem@.len() implies node_view(#[trigger] rem@[m])
                == vm[k + 1 + m] by {
                assert(rem@[m] == prem[m + 1]);
            }
        }
        let mut j: usize = 0;
        while j < out.len() && !le_node_exec(&x, &out[j], reverse)
            invariant
                0 <= j <= out@.len(),
                forall|m: int| 0 <= m < j ==> !le_order(
                    node_view(x),
                    nodes_view(out@)[m],
                    reverse,
                ),
            decreases out@.len() - j,
        {
            proof {
                assert(nodes_view(out@)[j as int] == node_view(out@[j as int]));
            }
            j += 1;
        }
        let ghost pout = out@;
        out.insert(j, x);
        proof {
            lemma_sort_seq_props(vm.take(k), reverse);
            assert(j < pout.len() ==> le_order(
                node_view(x),
                nodes_view(pout)[j as int],
                reverse,
            ));
            lemma_insert_sorted_at(node_view(x), nodes_view(pout), j as int, reverse);
            lemma_nodes_view_insert(pout, j as int, x);
            assert(vm.take(k + 1).drop_last() =~= vm.take(k));
            assert(vm.take(k + 1).last() == vm[k]);
            assert(sort_seq(vm.take(k + 1), reverse) == insert_sorted(
                vm[k],
                sort_seq(vm.take(k), reverse),
                reverse,
            ));
            assert(nodes_view(out@) == sort_seq(vm.take(k + 1), reverse));
            k = k + 1;
        }
    }
    proof {
        assert(vm.take(k) =~= vm);
    }
    out
}

/// Orders the children of every directory in a tree, recursively.
pub fn sort_tree(n: &Node, reverse: bool) -> (r: Node)
    ensures
        node_view(r) == sort_node(node_view(*n), reverse),
    decreases *n,
{
    let ghost nm = node_view(*n);
    let mut mapped: Vec<Node> = Vec::new();
    let mut i: usize = 0;
    while i < n.children.len()
        invariant
            0 <= i <= n.children@.len(),
            nm == node_view(*n),
            nm.children.len() == n.children@.len(),
            mapped@.len() == i,
            forall|m: int| 0 <= m < i ==> node_view(#[trigger] mapped@[m]) == sort_node(
                nm.children[m],
                reverse,
            ),
        decreases n.children@.len() - i,
    {
        proof {
            assert(nm.children[i as int] == node_view(n.children@[i as int]));
            assert(decreases_to!(*n => n.children@[i as int]));
        }
        let sc = sort_tree(&n.children[i], reverse);
        mapped.push(sc);
        i += 1;
    }
    proof {
        assert(nodes_view(mapped@) =~= sort_kids(nm.children, reverse));
    }
    let sorted = sort_vec(mapped, reverse);
    let r = Node {
        path: n.path.clone(),
        device: n.device,
        inode: n.inode,
        kind: n.kind,
        own_size: n.own_size,
        aggregate_size: n.aggregate_size,
        children: sorted,
    };
    proof {
        assert(node_view(r).children =~= nodes_view(r.children@)) by {
            assert forall|m: int| 0 <= m < r.children@.len() implies node_view(r).children[m]
                == nodes_view(r.children@)[m] by {}
        }
        assert(node_view(r) == sort_node(nm, reverse));
    }
    r
}

/// Orders every tree of the forest; the trees themselves stay in argument
/// order.
pub fn sort_trees(v: &Vec<Node>, reverse: bool) -> (r: Vec<Node>)
    ensures
        nodes_view(r@) == sort_forest(nodes_view(v@), reverse),
{
    let ghost vm = nodes_view(v@);
    let mut out: Vec<Node> = Vec::new();
    let mut i: usize = 0;
    while i < v.len()
        invariant
            0 <= i <= v@.len(),
            vm == nodes_view(v@),
            vm.len() == v@.len(),
            out@.len() == i,
            forall|m: int| 0 <= m < i ==> node_view(#[trigger] out@[m]) == sort_node(
                vm[m],
                reverse,
            ),
        decreases v@.len() - i,
    {
        proof {
            assert(vm[i as int] == node_view(v@[i as int]));
        }
        let sc = sort_tree(&v[i], reverse);
        out.push(sc);
        i += 1;
    }
    proof {
        assert(nodes_view(out@) =~= sort_forest(vm, reverse));
    }
    out
}


proof fn lemma_sum_sizes_remove(s: Seq<NodeM>, j: int)
    requires
        0 <= j < s.len(),
    ensures
        sum_sizes(s) == s[j].aggregate_size + sum_sizes(s.remove(j)),
    decreases s.len(),
{
    if j == 0 {
        assert(s.remove(0) =~= s.drop_first());
    } else {
        lemma_sum_sizes_remove(s.drop_first(), j - 1);
        assert(s.remove(j).drop_first() =~= s.drop_first().remove(j - 1));
        assert(s.remove(j)[0] == s[0]);
    }
}

/// The sum of sibling sizes does not depend on their order.
pub proof fn lemma_sum_sizes_perm(s1: Seq<NodeM>, s2: Seq<NodeM>)
    requires
        s1.to_multiset() == s2.to_multiset(),
    ensures
        sum_sizes(s1) == sum_sizes(s2),
    decreases s1.len(),
{
    broadcast use vstd::seq_lib::group_to_multiset_ensures;

    assert(s1.to_multiset().len() == s1.len());
    assert(s2.to_multiset().len() == s2.len());
    if s1.len() > 0 {
        assert(s2.to_multiset().count(s1[0]) > 0) by {
            assert(s1.contains(s1[0]));
        }
        assert(s2.contains(s1[0]));
        let j = choose|j: int| 0 <= j < s2.len() && s2[j] == s1[0];
        lemma_sum_sizes_remove(s2, j);
        assert(s1.remove(0) =~= s1.drop_first());
        assert(s1.drop_first().to_multiset() == s1.to_multiset().remove(s1[0]));
        assert(s2.remove(j).to_multiset() == s2.to_multiset().remove(s2[j]));
        lemma_sum_sizes_perm(s1.drop_first(), s2.remove(j));
    }
}

proof fn lemma_sum_sizes_pointwise(a: Seq<NodeM>, b: Seq<NodeM>)
    requires
        a.len() == b.len(),
        forall|i: int|
            0 <= i < a.len() ==> (#[trigger] a[i]).aggregate_size == b[i].aggregate_size,
    ensures
        sum_sizes(a) == sum_sizes(b),
    decreases a.len(),
{
    if a.len() > 0 {
        assert(forall|i: int|
            0 <= i < a.drop_first().len() ==> (#[trigger] a.drop_first()[i]).aggregate_size
                == b.drop_first()[i].aggregate_size && a.drop_first()[i] == a[i + 1]
                && b.drop_first()[i] == b[i + 1]);
        lemma_sum_sizes_pointwise(a.drop_first(), b.drop_first());
    }
}

/// The sorter only reorders: a well-formed tree stays well formed, with
/// the same own and aggregate size at every node.
pub proof fn lemma_sort_preserves_wf(n: NodeM, reverse: bool)
    requires
        node_wf(n),
    ensures
        node_wf(sort_node(n, reverse)),
    decreases n,
{
    broadcast use vstd::seq_lib::group_to_multiset_ensures;

    let sn = sort_node(n, reverse);
    let sk = sort_kids(n.children, reverse);
    lemma_sort_seq_props(sk, reverse);
    lemma_sum_sizes_perm(sn.children, sk);
    assert(forall|i: int|
        0 <= i < sk.len() ==> (#[trigger] sk[i]).aggregate_size == n.children[i].aggregate_size);
    lemma_sum_sizes_pointwise(sk, n.children);
    assert forall|i: int| 0 <= i < sn.children.len() implies node_wf(
        #[trigger] sn.children[i],
    ) by {
        assert(sn.children.contains(sn.children[i]));
        assert(sk.to_multiset().count(sn.children[i]) > 0);
        assert(sk.contains(sn.children[i]));
        let j = choose|j: int| 0 <= j < sk.len() && sk[j] == sn.children[i];
        assert(sk[j] == sort_node(n.children[j], reverse));
        assert(node_wf(n.children[j]));
        lemma_sort_preserves_wf(n.children[j], reverse);
    }
}

/// Every directory's children ordered by the active policy, all the way
/// down.
pub open spec fn tree_sorted(n: NodeM, reverse: bool) -> bool
    decreases n,
{
    &&& sorted_by(n.children, reverse)
    &&& forall|i: int| 0 <= i < n.children.len() ==> tree_sorted(#[trigger] n.children[i], reverse)
}

/// The sorter delivers what it promises: the sorted tree is ordered at
/// every level.
pub proof fn lemma_sort_node_sorted(n: NodeM, reverse: bool)
    ensures
        tree_sorted(sort_node(n, reverse), reverse),
    decreases n,
{
    broadcast use vstd::seq_lib::group_to_multiset_ensures;

    let sn = sort_node(n, reverse);
    let sk = sort_kids(n.children, reverse);
    lemma_sort_seq_props(sk, reverse);
    assert forall|i: int| 0 <= i < sn.children.len() implies tree_sorted(
        #[trigger] sn.children[i],
        reverse,
    ) by {
        assert(sn.children.contains(sn.children[i]));
        assert(sk.to_multiset().count(sn.children[i]) > 0);
        assert(sk.contains(sn.children[i]));
        let j = choose|j: int| 0 <= j < sk.len() && sk[j] == sn.children[i];
        assert(sk[j] == sort_node(n.children[j], reverse));
        lemma_sort_node_sorted(n.children[j], reverse);
    }
}

/// Both facts lifted to the whole forest.
pub proof fn lemma_sort_forest_props(s: Seq<NodeM>, reverse: bool)
    requires
        forest_wf(s),
    ensures
        forest_wf(sort_forest(s, reverse)),
        forall|i: int|
            0 <= i < sort_forest(s, reverse).len() ==> tree_sorted(
                #[trigger] sort_forest(s, reverse)[i],
                reverse,
            ),
        sort_forest(s, reverse).len() == s.len(),
{
    assert forall|i: int| 0 <= i < sort_forest(s, reverse).len() implies node_wf(
        #[trigger] sort_forest(s, reverse)[i],
    ) && tree_sorted(sort_forest(s, reverse)[i], reverse) by {
        assert(sort_forest(s, reverse)[i] == sort_node(s[i], reverse));
        assert(node_wf(s[i]));
        lemma_sort_preserves_wf(s[i], reverse);
        lemma_sort_node_sorted(s[i], reverse);
    }
}

} // verus!
