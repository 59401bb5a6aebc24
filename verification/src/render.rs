use vstd::prelude::*;

verus! {

use crate::model::{Node, NodeM, node_view, nodes_view};
use crate::sizefmt::{size_cell, format_size};
use crate::pathops::{basename, basename_of, strings_view};

/// Whether children below the current node are still within the depth
/// budget.
pub open spec fn can_descend(limit: Option<u32>) -> bool {
    match limit {
        None => true,
        Some(d) => d > 0,
    }
}

pub open spec fn dec_limit(limit: Option<u32>) -> Option<u32> {
    match limit {
        None => None,
        Some(d) => Some((if d > 0 {
            d - 1
        } else {
            0
        }) as u32),
    }
}

/// Roots show their full path; descendants show their last component
/// unless full paths were asked for.
pub open spec fn shown_name(path: Seq<char>, is_root: bool, long_paths: bool) -> Seq<char> {
    if is_root || long_paths {
        path
    } else {
        basename(path)
    }
}

/// The glyph pair after the dash: a branch into visible children, or a
/// plain end. Upside-down rendering mirrors the branch.
pub open spec fn branch_glyph(has_kids: bool, reverse: bool) -> Seq<char> {
    if has_kids {
        if reverse {
            seq!['─', '┴']
        } else {
            seq!['─', '┬']
        }
    } else {
        seq!['─', '─']
    }
}

/// The connector of a non-root line: a corner for the outermost sibling of
/// the walk, a tee for the others.
pub open spec fn connector(corner: bool, has_kids: bool, reverse: bool) -> Seq<char> {
    seq![
        if corner {
            if reverse {
                '┌'
            } else {
                '└'
            }
        } else {
            '├'
        },
    ] + branch_glyph(has_kids, reverse)
}

/// One rendered line: the five-column size, the connector prefix with the
/// ancestors' continuation cells, and the node's name.
pub open spec fn node_line(
    n: NodeM,
    cells: Seq<char>,
    is_root: bool,
    corner: bool,
    has_kids: bool,
    long_paths: bool,
    reverse: bool,
) -> Seq<char> {
    size_cell(n.aggregate_size) + seq![' '] + (if is_root {
        branch_glyph(has_kids, reverse)
    } else {
        seq![' '] + cells + connector(corner, has_kids, reverse)
    }) + seq![' '] + shown_name(n.path, is_root, long_paths)
}

/// The lines of one subtree. In reverse mode the subtree is emitted upside
/// down: children first, the node's own line last.
pub open spec fn render_node(
    n: NodeM,
    cells: Seq<char>,
    is_root: bool,
    corner: bool,
    limit: Option<u32>,
    long_paths: bool,
    reverse: bool,
) -> Seq<Seq<char>>
    decreases n, 0int, 0int,
{
    let has_kids = n.children.len() > 0 && can_descend(limit);
    let line = node_line(n, cells, is_root, corner, has_kids, long_paths, reverse);
    let child_cells = if is_root {
        Seq::<char>::empty()
    } else {
        cells + (if corner {
            seq![' ', ' ']
        } else {
            seq!['│', ' ']
        })
    };
    let kid_lines = if can_descend(limit) {
        render_from(n.children, 0, child_cells, dec_limit(limit), long_paths, reverse)
    } else {
        Seq::<Seq<char>>::empty()
    };
    if reverse {
        kid_lines + seq![line]
    } else {
        seq![line] + kid_lines
    }
}

/// The lines of the children from position `idx` on. The corner goes to
/// the last sibling, or in reverse mode to the first, the one at the
/// outermost end of the drawn fork.
pub open spec fn render_from(
    s: Seq<NodeM>,
    idx: int,
    cells: Seq<char>,
    limit: Option<u32>,
    long_paths: bool,
    reverse: bool,
) -> Seq<Seq<char>>
    decreases s, 1int, s.len() - idx,
{
    if idx < 0 || idx >= s.len() {
        Seq::empty()
    } else {
        let corner = if reverse {
            idx == 0
        } else {
            idx == s.len() - 1
        };
        render_node(s[idx], cells, false, corner, limit, long_paths, reverse) + render_from(
            s,
            idx + 1,
            cells,
            limit,
            long_paths,
            reverse,
        )
    }
}

/// The lines of the whole forest, tree after tree in root order.
pub open spec fn render_forest(
    forest: Seq<NodeM>,
    limit: Option<u32>,
    long_paths: bool,
    reverse: bool,
) -> Seq<Seq<char>>
    decreases forest.len(),
{
    if forest.len() == 0 {
        Seq::empty()
    } else {
        render_node(forest[0], Seq::empty(), true, false, limit, long_paths, reverse)
            + render_forest(forest.drop_first(), limit, long_paths, reverse)
    }
}

proof fn lemma_strings_view_push(s: Seq<String>, x: String)
    ensures
        strings_view(s.push(x)) =~= strings_view(s).push(x@),
{
    assert forall|k: int| 0 <= k < s.len() + 1 implies strings_view(s.push(x))[k]
        == strings_view(s).push(x@)[k] by {
        if k < s.len() {
            assert(s.push(x)[k] == s[k]);
        } else {
            assert(s.push(x)[k] == x);
        }
    }
}

/// Renders one subtree into `out`.
#[verifier::rlimit(80)]
fn render_tree(
    n: &Node,
    cells: &String,
    is_root: bool,
    corner: bool,
    limit: Option<u32>,
    long_paths: bool,
    reverse: bool,
    out: &mut Vec<String>,
)
    ensures
        strings_view(final(out)@) == strings_view(old(out)@) + render_node(
            node_view(*n),
            cells@,
            is_root,
            corner,
            limit,
            long_paths,
            reverse,
        ),
    decreases *n, 1int,
{
    let ghost nm = node_view(*n);
    let descend = match limit {
        None => true,
        Some(d) => d > 0,
    };
    let has_kids = n.children.len() > 0 && descend;
    proof {
        assert(descend == can_descend(limit));
        assert(has_kids == (nm.children.len() > 0 && can_descend(limit)));
        reveal_strlit(" ");
        reveal_strlit("─┬");
        reveal_strlit("─┴");
        reveal_strlit("──");
        reveal_strlit("└");
        reveal_strlit("┌");
        reveal_strlit("├");
        reveal_strlit("│ ");
        reveal_strlit("  ");
        assert(" "@ =~= seq![' ']);
        assert("─┬"@ =~= seq!['─', '┬']);
        assert("─┴"@ =~= seq!['─', '┴']);
        assert("──"@ =~= seq!['─', '─']);
        assert("└"@ =~= seq!['└']);
        assert("┌"@ =~= seq!['┌']);
        assert("├"@ =~= seq!['├']);
        assert("│ "@ =~= seq!['│', ' ']);
        assert("  "@ =~= seq![' ', ' ']);
    }
    let mut line = format_size(n.aggregate_size);
    line.append(" ");
    if is_root {
        line.append(
            if has_kids {
                if reverse {
                    "─┴"
                } else {
                    "─┬"
                }
            } else {
                "──"
            },
        );
    } else {
        line.append(" ");
        line.append(cells.as_str());
        line.append(
            if corner {
                if reverse {
                    "┌"
                } else {
                    "└"
                }
            } else {
                "├"
            },
        );
        line.append(
            if has_kids {
                if reverse {
                    "─┴"
                } else {
                    "─┬"
                }
            } else {
                "──"
            },
        );
    }
    line.append(" ");
    if is_root || long_paths {
        line.append(n.path.as_str());
    } else {
        let base = basename_of(n.path.as_str());
        line.append(base);
    }
    proof {
        assert(line@ =~= node_line(nm, cells@, is_root, corner, has_kids, long_paths, reverse));
    }
    let ghost base_out = out@;
    if !reverse {
        let ghost before = out@;
        out.push(line);
        proof {
            lemma_strings_view_push(before, out@[out@.len() - 1]);
        }
        if descend {
            render_children(n, cells, is_root, corner, limit, long_paths, reverse, out);
        }
    } else {
        if descend {
            render_children(n, cells, is_root, corner, limit, long_paths, reverse, out);
        }
        let ghost before = out@;
        out.push(line);
        proof {
            lemma_strings_view_push(before, out@[out@.len() - 1]);
        }
    }
    proof {
        let block = render_node(nm, cells@, is_root, corner, limit, long_paths, reverse);
        assert(strings_view(final(out)@) =~= strings_view(base_out) + block);
    }
}

/// Renders the children of one directory, in sibling order.
#[verifier::rlimit(80)]
fn render_children(
    n: &Node,
    cells: &String,
    is_root: bool,
    corner: bool,
    limit: Option<u32>,
    long_paths: bool,
    reverse: bool,
    out: &mut Vec<String>,
)
    requires
        can_descend(limit),
    ensures
        strings_view(final(out)@) == strings_view(old(out)@) + render_from(
            node_view(*n).children,
            0,
            if is_root {
                Seq::<char>::empty()
            } else {
                cells@ + (if corner {
                    seq![' ', ' ']
                } else {
                    seq!['│', ' ']
                })
            },
            dec_limit(limit),
            long_paths,
            reverse,
        ),
    decreases *n, 0int,
{
    let ghost nm = node_view(*n);
    proof {
        reveal_strlit("│ ");
        reveal_strlit("  ");
        assert("│ "@ =~= seq!['│', ' ']);
        assert("  "@ =~= seq![' ', ' ']);
    }
    let mut child_cells = String::new();
    if !is_root {
        child_cells.append(cells.as_str());
        child_cells.append(
            if corner {
                "  "
            } else {
                "│ "
            },
        );
    }
    let new_limit = match limit {
        None => None,
        Some(d) => Some(d - 1),
    };
    proof {
        assert(new_limit == dec_limit(limit));
    }
    let ghost kids = nm.children;
    let ghost loop_base = strings_view(out@);
    let mut i: usize = 0;
    while i < n.children.len()
        invariant
            0 <= i <= n.children@.len(),
            nm == node_view(*n),
            kids == nm.children,
            kids.len() == n.children@.len(),
            new_limit == dec_limit(limit),
            child_cells@ == (if is_root {
                Seq::<char>::empty()
            } else {
                cells@ + (if corner {
                    seq![' ', ' ']
                } else {
                    seq!['│', ' ']
                })
            }),
            strings_view(out@) + render_from(
                kids,
                i as int,
                child_cells@,
                new_limit,
                long_paths,
                reverse,
            ) == loop_base + render_from(kids, 0, child_cells@, new_limit, long_paths, reverse),
        decreases n.children@.len() - i,
    {
        let kid_corner = if reverse {
            i == 0
        } else {
            i + 1 == n.children.len()
        };
        proof {
            assert(kids[i as int] == node_view(n.children@[i as int]));
            assert(decreases_to!(*n => n.children@[i as int]));
        }
        let ghost pre = strings_view(out@);
        render_tree(
            &n.children[i],
            &child_cells,
            false,
            kid_corner,
            new_limit,
            long_paths,
            reverse,
            out,
        );
        proof {
            let blk = render_node(
                kids[i as int],
                child_cells@,
                false,
                kid_corner,
                new_limit,
                long_paths,
                reverse,
            );
            let rest = render_from(kids, i + 1, child_cells@, new_limit, long_paths, reverse);
            assert((pre + blk) + rest =~= pre + (blk + rest));
        }
        i += 1;
    }
}

/// Renders the whole forest: each visible node yields exactly one line, in
/// the order and shape the display rules define.
pub fn render_lines(
    forest: &Vec<Node>,
    max_depth: Option<u32>,
    long_paths: bool,
    reverse: bool,
) -> (lines: Vec<String>)
    ensures
        strings_view(lines@) == render_forest(
            nodes_view(forest@),
            max_depth,
            long_paths,
            reverse,
        ),
{
    let ghost fm = nodes_view(forest@);
    let empty_cells = String::new();
    let mut out: Vec<String> = Vec::new();
    let mut i: usize = 0;
    proof {
        assert(strings_view(out@) =~= Seq::<Seq<char>>::empty());
    }
    while i < forest.len()
        invariant
            0 <= i <= forest@.len(),
            fm == nodes_view(forest@),
            fm.len() == forest@.len(),
            empty_cells@ == Seq::<char>::empty(),
            strings_view(out@) == render_forest(fm.take(i as int), max_depth, long_paths, reverse),
        decreases forest@.len() - i,
    {
        let ghost pre = strings_view(out@);
        proof {
            assert(fm[i as int] == node_view(forest@[i as int]));
        }
        render_tree(&forest[i], &empty_cells, true, false, max_depth, long_paths, reverse, &mut out);
        proof {
            lemma_render_forest_push(fm.take(i as int), fm[i as int], max_depth, long_paths, reverse);
            assert(fm.take(i + 1) =~= fm.take(i as int).push(fm[i as int]));
        }
        i += 1;
    }
    proof {
        assert(fm.take(fm.len() as int) =~= fm);
    }
    out
}

proof fn lemma_render_forest_push(
    s: Seq<NodeM>,
    x: NodeM,
    limit: Option<u32>,
    long_paths: bool,
    reverse: bool,
)
    ensures
        render_forest(s.push(x), limit, long_paths, reverse) == render_forest(
            s,
            limit,
            long_paths,
            reverse,
        ) + render_node(x, Seq::empty(), true, false, limit, long_paths, reverse),
    decreases s.len(),
{
    reveal_with_fuel(render_forest, 3);
    if s.len() == 0 {
        assert(s.push(x)[0] == x);
        assert(s.push(x).drop_first() =~= Seq::<NodeM>::empty());
        assert(render_forest(s.push(x), limit, long_paths, reverse) =~= Seq::<Seq<char>>::empty()
            + render_node(x, Seq::empty(), true, false, limit, long_paths, reverse));
        assert(render_forest(s, limit, long_paths, reverse) + render_node(
            x,
            Seq::empty(),
            true,
            false,
            limit,
            long_paths,
            reverse,
        ) =~= render_node(x, Seq::empty(), true, false, limit, long_paths, reverse));
    } else {
        assert(s.push(x)[0] == s[0]);
        assert(s.push(x).drop_first() =~= s.drop_first().push(x));
        lemma_render_forest_push(s.drop_first(), x, limit, long_paths, reverse);
        let a = render_node(s[0], Seq::empty(), true, false, limit, long_paths, reverse);
        let b = render_forest(s.drop_first(), limit, long_paths, reverse);
        let c = render_node(x, Seq::empty(), true, false, limit, long_paths, reverse);
        assert(a + (b + c) =~= (a + b) + c);
    }
}


/// What the renderer displays for each node: path, displayed size and
/// depth, in forward walk order.
pub open spec fn listing(n: NodeM, limit: Option<u32>, depth: int) -> Seq<(Seq<char>, u64, int)>
    decreases n, 0int, 0int,
{
    seq![(n.path, n.aggregate_size, depth)] + if can_descend(limit) {
        listing_from(n.children, 0, dec_limit(limit), depth + 1)
    } else {
        Seq::<(Seq<char>, u64, int)>::empty()
    }
}

pub open spec fn listing_from(s: Seq<NodeM>, idx: int, limit: Option<u32>, depth: int) -> Seq<
    (Seq<char>, u64, int),
>
    decreases s, 1int, s.len() - idx,
{
    if idx < 0 || idx >= s.len() {
        Seq::empty()
    } else {
        listing(s[idx], limit, depth) + listing_from(s, idx + 1, limit, depth)
    }
}

/// The entries of a listing that lie at or above a depth cutoff.
pub open spec fn keep_upto(s: Seq<(Seq<char>, u64, int)>, cutoff: int) -> Seq<
    (Seq<char>, u64, int),
>
    decreases s.len(),
{
    if s.len() == 0 {
        Seq::empty()
    } else if s[0].2 <= cutoff {
        seq![s[0]] + keep_upto(s.drop_first(), cutoff)
    } else {
        keep_upto(s.drop_first(), cutoff)
    }
}

proof fn lemma_keep_upto_add(a: Seq<(Seq<char>, u64, int)>, b: Seq<(Seq<char>, u64, int)>, c: int)
    ensures
        keep_upto(a + b, c) == keep_upto(a, c) + keep_upto(b, c),
    decreases a.len(),
{
    if a.len() == 0 {
        assert(a + b =~= b);
        assert(keep_upto(a, c) + keep_upto(b, c) =~= keep_upto(b, c));
    } else {
        assert((a + b)[0] == a[0]);
        assert((a + b).drop_first() =~= a.drop_first() + b);
        lemma_keep_upto_add(a.drop_first(), b, c);
        if a[0].2 <= c {
            assert(seq![a[0]] + (keep_upto(a.drop_first(), c) + keep_upto(b, c)) =~= (seq![a[0]]
                + keep_upto(a.drop_first(), c)) + keep_upto(b, c));
        }
    }
}

proof fn lemma_listing_depths(n: NodeM, limit: Option<u32>, depth: int)
    ensures
        forall|k: int|
            0 <= k < listing(n, limit, depth).len() ==> (#[trigger] listing(n, limit, depth)[k]).2
                >= depth,
    decreases n, 0int, 0int,
{
    let l = listing(n, limit, depth);
    if can_descend(limit) {
        lemma_listing_depths_from(n.children, 0, dec_limit(limit), depth + 1);
        assert forall|k: int| 0 <= k < l.len() implies (#[trigger] l[k]).2 >= depth by {
            if k > 0 {
                assert(l[k] == listing_from(n.children, 0, dec_limit(limit), depth + 1)[k - 1]);
            }
        }
    } else {
        assert forall|k: int| 0 <= k < l.len() implies (#[trigger] l[k]).2 >= depth by {
            assert(k == 0);
        }
    }
}

proof fn lemma_listing_depths_from(s: Seq<NodeM>, idx: int, limit: Option<u32>, depth: int)
    ensures
        forall|k: int|
            0 <= k < listing_from(s, idx, limit, depth).len() ==> (#[trigger] listing_from(
                s,
                idx,
                limit,
                depth,
            )[k]).2 >= depth,
    decreases s, 1int, s.len() - idx,
{
    if 0 <= idx < s.len() {
        lemma_listing_depths(s[idx], limit, depth);
        lemma_listing_depths_from(s, idx + 1, limit, depth);
        let a = listing(s[idx], limit, depth);
        let b = listing_from(s, idx + 1, limit, depth);
        assert forall|k: int| 0 <= k < (a + b).len() implies (#[trigger] (a + b)[k]).2
            >= depth by {
            if k < a.len() {
                assert((a + b)[k] == a[k]);
            } else {
                assert((a + b)[k] == b[k - a.len()]);
            }
        }
    }
}

proof fn lemma_keep_upto_none(s: Seq<(Seq<char>, u64, int)>, c: int)
    requires
        forall|k: int| 0 <= k < s.len() ==> (#[trigger] s[k]).2 > c,
    ensures
        keep_upto(s, c) == Seq::<(Seq<char>, u64, int)>::empty(),
    decreases s.len(),
{
    if s.len() > 0 {
        assert(forall|k: int|
            0 <= k < s.drop_first().len() ==> (#[trigger] s.drop_first()[k]).2 > c);
        lemma_keep_upto_none(s.drop_first(), c);
    }
}

/// Depth truncation preserves totals: what a depth-limited run displays is
/// exactly the unlimited listing cut at that depth — every shown node keeps
/// the path and the size it has with no limit at all.
pub proof fn lemma_depth_truncation(n: NodeM, d: u32, depth: int)
    ensures
        listing(n, Some(d), depth) == keep_upto(listing(n, None, depth), depth + d),
    decreases n, 0int, 0int,
{
    reveal_with_fuel(keep_upto, 3);
    let head = (n.path, n.aggregate_size, depth);
    let kids_full = listing_from(n.children, 0, None, depth + 1);
    assert(listing(n, None, depth) == seq![head] + kids_full);
    lemma_keep_upto_add(seq![head], kids_full, depth + d);
    assert(seq![head].drop_first() =~= Seq::<(Seq<char>, u64, int)>::empty());
    assert(keep_upto(seq![head], depth + d) =~= seq![head]);
    if d > 0 {
        lemma_depth_truncation_from(n.children, 0, (d - 1) as u32, depth + 1);
        assert(dec_limit(Some(d)) == Some((d - 1) as u32));
        assert((depth + 1) + (d - 1) == depth + d);
    } else {
        lemma_listing_depths_from(n.children, 0, None, depth + 1);
        lemma_keep_upto_none(kids_full, depth);
        assert(listing(n, Some(d), depth) =~= seq![head]);
        assert(seq![head] + Seq::<(Seq<char>, u64, int)>::empty() =~= seq![head]);
    }
}

proof fn lemma_depth_truncation_from(s: Seq<NodeM>, idx: int, d: u32, depth: int)
    ensures
        listing_from(s, idx, Some(d), depth) == keep_upto(
            listing_from(s, idx, None, depth),
            depth + d,
        ),
    decreases s, 1int, s.len() - idx,
{
    if idx < 0 || idx >= s.len() {
    } else {
        lemma_depth_truncation(s[idx], d, depth);
        lemma_depth_truncation_from(s, idx + 1, d, depth);
        lemma_keep_upto_add(
            listing(s[idx], None, depth),
            listing_from(s, idx + 1, None, depth),
            depth + d,
        );
    }
}


/// Every visible node yields exactly one line, and in the forward walk the
/// k-th line opens with the size column of the k-th listed node: the
/// renderer prints for each node exactly the size its listing records,
/// under any depth limit.
pub proof fn lemma_lines_show_listing(
    n: NodeM,
    cells: Seq<char>,
    is_root: bool,
    corner: bool,
    limit: Option<u32>,
    long_paths: bool,
    depth: int,
)
    ensures
        ({
            let lines = render_node(n, cells, is_root, corner, limit, long_paths, false);
            let lst = listing(n, limit, depth);
            &&& lines.len() == lst.len()
            &&& forall|k: int|
                0 <= k < lst.len() ==> (#[trigger] lines[k]).take(5) == size_cell(lst[k].1)
        }),
    decreases n, 0int, 0int,
{
    let lines = render_node(n, cells, is_root, corner, limit, long_paths, false);
    let lst = listing(n, limit, depth);
    let has_kids = n.children.len() > 0 && can_descend(limit);
    let line = node_line(n, cells, is_root, corner, has_kids, long_paths, false);
    crate::sizefmt::lemma_size_cell_len(n.aggregate_size);
    assert(line.take(5) =~= size_cell(n.aggregate_size));
    let child_cells = if is_root {
        Seq::<char>::empty()
    } else {
        cells + (if corner {
            seq![' ', ' ']
        } else {
            seq!['│', ' ']
        })
    };
    if can_descend(limit) {
        lemma_lines_show_listing_from(
            n.children,
            0,
            child_cells,
            dec_limit(limit),
            long_paths,
            depth + 1,
        );
        let kid_lines = render_from(n.children, 0, child_cells, dec_limit(limit), long_paths, false);
        let kid_lst = listing_from(n.children, 0, dec_limit(limit), depth + 1);
        assert(lines == seq![line] + kid_lines);
        assert(lst == seq![(n.path, n.aggregate_size, depth)] + kid_lst);
        assert forall|k: int| 0 <= k < lst.len() implies (#[trigger] lines[k]).take(5)
            == size_cell(lst[k].1) by {
            if k == 0 {
                assert(lines[0] == line);
                assert(lst[0] == (n.path, n.aggregate_size, depth));
            } else {
                assert(lines[k] == kid_lines[k - 1]);
                assert(lst[k] == kid_lst[k - 1]);
            }
        }
    } else {
        assert(lines =~= seq![line]);
        assert(lst =~= seq![(n.path, n.aggregate_size, depth)]);
        assert forall|k: int| 0 <= k < lst.len() implies (#[trigger] lines[k]).take(5)
            == size_cell(lst[k].1) by {
            assert(k == 0);
        }
    }
}

proof fn lemma_lines_show_listing_from(
    s: Seq<NodeM>,
    idx: int,
    cells: Seq<char>,
    limit: Option<u32>,
    long_paths: bool,
    depth: int,
)
    ensures
        ({
            let lines = render_from(s, idx, cells, limit, long_paths, false);
            let lst = listing_from(s, idx, limit, depth);
            &&& lines.len() == lst.len()
            &&& forall|k: int|
                0 <= k < lst.len() ==> (#[trigger] lines[k]).take(5) == size_cell(lst[k].1)
        }),
    decreases s, 1int, s.len() - idx,
{
    if 0 <= idx < s.len() {
        let corner = idx == s.len() - 1;
        lemma_lines_show_listing(s[idx], cells, false, corner, limit, long_paths, depth);
        lemma_lines_show_listing_from(s, idx + 1, cells, limit, long_paths, depth);
        let a = render_node(s[idx], cells, false, corner, limit, long_paths, false);
        let al = listing(s[idx], limit, depth);
        let b = render_from(s, idx + 1, cells, limit, long_paths, false);
        let bl = listing_from(s, idx + 1, limit, depth);
        assert forall|k: int| 0 <= k < (al + bl).len() implies (#[trigger] (a + b)[k]).take(5)
            == size_cell((al + bl)[k].1) by {
            if k < al.len() {
                assert((a + b)[k] == a[k]);
                assert((al + bl)[k] == al[k]);
            } else {
                assert((a + b)[k] == b[k - al.len()]);
                assert((al + bl)[k] == bl[k - al.len()]);
            }
        }
    }
}

} // verus!
