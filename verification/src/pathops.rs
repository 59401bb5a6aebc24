use vstd::prelude::*;

verus! {

/// Where the last path component starts: one past the last separator seen
/// so far, scanning from position `i` with `start` already found.
pub open spec fn base_scan(p: Seq<char>, i: int, start: int) -> int
    decreases p.len() - i,
{
    if i < 0 || i >= p.len() {
        start
    } else if p[i] == '/' {
        base_scan(p, i + 1, i + 1)
    } else {
        base_scan(p, i + 1, start)
    }
}

/// The last component of a path: what follows its last separator.
pub open spec fn basename(p: Seq<char>) -> Seq<char> {
    p.subrange(base_scan(p, 0, 0), p.len() as int)
}

proof fn lemma_base_scan_bounds(p: Seq<char>, i: int, start: int)
    requires
        0 <= start <= i,
    ensures
        start <= base_scan(p, i, start) <= if i <= p.len() {
            p.len() as int
        } else {
            i
        },
    decreases p.len() - i,
{
    if 0 <= i < p.len() {
        if p[i] == '/' {
            lemma_base_scan_bounds(p, i + 1, i + 1);
        } else {
            lemma_base_scan_bounds(p, i + 1, start);
        }
    }
}

/// The last component of a path string.
pub fn basename_of(p: &str) -> (r: &str)
    ensures
        r@ == basename(p@),
{
    let n = p.unicode_len();
    let mut i: usize = 0;
    let mut start: usize = 0;
    while i < n
        invariant
            0 <= start <= i <= n,
            n == p@.len(),
            base_scan(p@, i as int, start as int) == base_scan(p@, 0, 0),
        decreases n - i,
    {
        let c = p.get_char(i);
        if c == '/' {
            start = i + 1;
        }
        i += 1;
    }
    proof {
        lemma_base_scan_bounds(p@, 0, 0);
    }
    p.substring_char(start, n)
}

/// A path with its trailing separators removed, down to at most one leading
/// character, so that `a/` and `a` name the same root.
pub open spec fn normalized(p: Seq<char>) -> Seq<char>
    decreases p.len(),
{
    if p.len() > 1 && p[p.len() - 1] == '/' {
        normalized(p.drop_last())
    } else {
        p
    }
}

pub fn normalize(p: &str) -> (r: String)
    ensures
        r@ == normalized(p@),
{
    let n = p.unicode_len();
    let mut end: usize = n;
    proof {
        assert(p@.subrange(0, n as int) =~= p@);
    }
    while end > 1 && p.get_char(end - 1) == '/'
        invariant
            0 <= end <= n,
            n == p@.len(),
            normalized(p@.subrange(0, end as int)) == normalized(p@),
        decreases end,
    {
        proof {
            let sub = p@.subrange(0, end as int);
            assert(sub[end - 1] == p@[end - 1]);
            assert(sub.drop_last() =~= p@.subrange(0, end - 1));
        }
        end -= 1;
    }
    let r = p.substring_char(0, end);
    proof {
        let sub = p@.subrange(0, end as int);
        if end > 1 {
            assert(sub[end - 1] != '/');
        }
        assert(normalized(sub) == sub);
    }
    String::from_str(r)
}

/// Whether `q` names a directory strictly above `r`: a proper prefix ending
/// at a component boundary.
pub open spec fn path_prefix(q: Seq<char>, r: Seq<char>) -> bool {
    q.len() < r.len() && r.subrange(0, q.len() as int) == q && r[q.len() as int] == '/'
}

fn str_eq(a: &str, b: &str) -> (r: bool)
    ensures
        r == (a@ == b@),
{
    let alen = a.unicode_len();
    let blen = b.unicode_len();
    if alen != blen {
        proof {
            assert(a@ != b@);
        }
        return false;
    }
    let mut i: usize = 0;
    while i < alen
        invariant
            0 <= i <= alen,
            alen == a@.len(),
            alen == b@.len(),
            forall|k: int| 0 <= k < i ==> a@[k] == b@[k],
        decreases alen - i,
    {
        if a.get_char(i) != b.get_char(i) {
            proof {
                assert(a@[i as int] != b@[i as int]);
            }
            return false;
        }
        i += 1;
    }
    proof {
        assert(a@ =~= b@);
    }
    true
}

fn is_path_prefix(q: &str, r: &str) -> (res: bool)
    ensures
        res == path_prefix(q@, r@),
{
    let qlen = q.unicode_len();
    let rlen = r.unicode_len();
    if qlen >= rlen {
        return false;
    }
    if r.get_char(qlen) != '/' {
        return false;
    }
    let mut i: usize = 0;
    while i < qlen
        invariant
            0 <= i <= qlen,
            qlen == q@.len(),
            rlen == r@.len(),
            qlen < rlen,
            forall|k: int| 0 <= k < i ==> q@[k] == r@[k],
        decreases qlen - i,
    {
        if q.get_char(i) != r.get_char(i) {
            proof {
                assert(r@.subrange(0, qlen as int)[i as int] == r@[i as int]);
                assert(r@.subrange(0, qlen as int) != q@);
            }
            return false;
        }
        i += 1;
    }
    proof {
        assert(r@.subrange(0, qlen as int) =~= q@);
    }
    true
}

pub open spec fn strings_view(s: Seq<String>) -> Seq<Seq<char>> {
    Seq::new(s.len(), |i: int| s[i]@)
}

pub open spec fn norms(rs: Seq<Seq<char>>) -> Seq<Seq<char>> {
    Seq::new(rs.len(), |i: int| normalized(rs[i]))
}

/// A root is kept when no earlier root names the same place and no root at
/// all names a directory above it.
pub open spec fn keep_root(ns: Seq<Seq<char>>, i: int) -> bool {
    &&& forall|j: int| 0 <= j < i ==> ns[j] != ns[i]
    &&& forall|j: int| 0 <= j < ns.len() ==> !path_prefix(#[trigger] ns[j], ns[i])
}

pub open spec fn simplified_from(ns: Seq<Seq<char>>, i: int) -> Seq<Seq<char>>
    decreases ns.len() - i,
{
    if i < 0 || i >= ns.len() {
        Seq::empty()
    } else if keep_root(ns, i) {
        seq![ns[i]] + simplified_from(ns, i + 1)
    } else {
        simplified_from(ns, i + 1)
    }
}

/// The roots that a run actually traverses: normalized, with duplicates and
/// roots nested inside other roots dropped.
pub open spec fn simplify_spec(rs: Seq<Seq<char>>) -> Seq<Seq<char>> {
    simplified_from(norms(rs), 0)
}

pub fn simplify_roots(roots: &Vec<String>) -> (r: Vec<String>)
    ensures
        strings_view(r@) == simplify_spec(strings_view(roots@)),
{
    let ghost nsv = norms(strings_view(roots@));
    let mut normd: Vec<String> = Vec::new();
    let mut i: usize = 0;
    while i < roots.len()
        invariant
            0 <= i <= roots@.len(),
            nsv == norms(strings_view(roots@)),
            nsv.len() == roots@.len(),
            normd@.len() == i,
            forall|k: int| 0 <= k < i ==> #[trigger] normd@[k]@ == nsv[k],
        decreases roots@.len() - i,
    {
        let n = normalize(roots[i].as_str());
        proof {
            assert(strings_view(roots@)[i as int] == roots@[i as int]@);
        }
        normd.push(n);
        i += 1;
    }
    let mut out: Vec<String> = Vec::new();
    let mut k: usize = 0;
    proof {
        assert(strings_view(out@) =~= Seq::<Seq<char>>::empty());
    }
    while k < normd.len()
        invariant
            0 <= k <= normd@.len(),
            nsv.len() == normd@.len(),
            forall|m: int| 0 <= m < normd@.len() ==> #[trigger] normd@[m]@ == nsv[m],
            strings_view(out@) + simplified_from(nsv, k as int) == simplified_from(nsv, 0),
        decreases normd@.len() - k,
    {
        let mut keep = true;
        let mut j: usize = 0;
        while j < k && keep
            invariant
                0 <= j <= k < normd@.len(),
                nsv.len() == normd@.len(),
                forall|m: int| 0 <= m < normd@.len() ==> #[trigger] normd@[m]@ == nsv[m],
                keep ==> forall|m: int| 0 <= m < j ==> nsv[m] != nsv[k as int],
                !keep ==> !keep_root(nsv, k as int),
            decreases k - j,
        {
            if str_eq(normd[j].as_str(), normd[k].as_str()) {
                keep = false;
            }
            j += 1;
        }
        let mut j2: usize = 0;
        while j2 < normd.len() && keep
            invariant
                0 <= j2 <= normd@.len(),
                nsv.len() == normd@.len(),
                k < normd@.len(),
                forall|m: int| 0 <= m < normd@.len() ==> #[trigger] normd@[m]@ == nsv[m],
                keep ==> forall|m: int| 0 <= m < k ==> nsv[m] != nsv[k as int],
                keep ==> forall|m: int| 0 <= m < j2 ==> !path_prefix(#[trigger] nsv[m], nsv[k as int]),
                !keep ==> !keep_root(nsv, k as int),
            decreases normd@.len() - j2,
        {
            if is_path_prefix(normd[j2].as_str(), normd[k].as_str()) {
                keep = false;
            }
            j2 += 1;
        }
        let ghost pout = out@;
        if keep {
            proof {
                assert(keep_root(nsv, k as int));
            }
            out.push(normd[k].clone());
            proof {
                assert(strings_view(out@) =~= strings_view(pout).push(nsv[k as int]));
                assert(strings_view(pout).push(nsv[k as int]) + simplified_from(nsv, k + 1)
                    =~= strings_view(pout) + (seq![nsv[k as int]] + simplified_from(nsv, k + 1)));
            }
        } else {
            proof {
                assert(!keep_root(nsv, k as int));
            }
        }
        k += 1;
    }
    proof {
        assert(simplified_from(nsv, nsv.len() as int) =~= Seq::<Seq<char>>::empty());
        assert(strings_view(out@) + Seq::<Seq<char>>::empty() =~= strings_view(out@));
    }
    out
}

/// Root-overlap idempotence at the path level: the root list `[a, b, a]`,
/// with `b` nested inside `a`, traverses exactly what `[a]` does.
pub proof fn lemma_simplify_overlap(a: Seq<char>, b: Seq<char>)
    requires
        path_prefix(normalized(a), normalized(b)),
    ensures
        simplify_spec(seq![a, b, a]) == seq![normalized(a)],
        simplify_spec(seq![a]) == seq![normalized(a)],
{
    reveal_with_fuel(simplified_from, 5);
    let ns3 = norms(seq![a, b, a]);
    assert(ns3.len() == 3);
    assert(ns3[0] == normalized(a) && ns3[1] == normalized(b) && ns3[2] == normalized(a));
    assert(keep_root(ns3, 0)) by {
        assert forall|j: int| 0 <= j < 3 implies !path_prefix(#[trigger] ns3[j], ns3[0]) by {
            if j == 1 {
                assert(normalized(b).len() > normalized(a).len());
            }
        }
    }
    assert(!keep_root(ns3, 1)) by {
        assert(path_prefix(ns3[0], ns3[1]));
    }
    assert(!keep_root(ns3, 2)) by {
        assert(ns3[0] == ns3[2]);
    }
    assert(simplify_spec(seq![a, b, a]) =~= seq![normalized(a)]);
    let ns1 = norms(seq![a]);
    assert(ns1.len() == 1);
    assert(ns1[0] == normalized(a));
    assert(keep_root(ns1, 0)) by {
        assert forall|j: int| 0 <= j < 1 implies !path_prefix(#[trigger] ns1[j], ns1[0]) by {}
    }
    assert(simplify_spec(seq![a]) =~= seq![normalized(a)]);
}

} // verus!
