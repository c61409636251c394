use vstd::prelude::*;

verus! {

/// One edge considered while growing the group of `seed`: the edge's other end
/// joins the group when the edge touches `seed` and that end is not taken yet.
pub open spec fn absorb(seed: usize, e: (usize, usize), members: Seq<usize>, taken: Seq<bool>) -> (
    Seq<usize>,
    Seq<bool>,
) {
    if e.0 == seed && !taken[e.1 as int] {
        (members.push(e.1), taken.update(e.1 as int, true))
    } else if e.1 == seed && !taken[e.0 as int] {
        (members.push(e.0), taken.update(e.0 as int, true))
    } else {
        (members, taken)
    }
}

/// The group of `seed` after one sweep over `edges`, in order.
pub open spec fn gather(
    seed: usize,
    edges: Seq<(usize, usize)>,
    members: Seq<usize>,
    taken: Seq<bool>,
) -> (Seq<usize>, Seq<bool>)
    decreases edges.len(),
{
    if edges.len() == 0 {
        (members, taken)
    } else {
        let (m, t) = gather(seed, edges.drop_last(), members, taken);
        absorb(seed, edges.last(), m, t)
    }
}

/// The groups seeded by the nodes below `m`, and which of the `n` nodes they take.
pub open spec fn groups_upto(n: nat, edges: Seq<(usize, usize)>, m: int) -> (
    Seq<Seq<usize>>,
    Seq<bool>,
)
    decreases m,
{
    if m <= 0 {
        (seq![], Seq::new(n, |i: int| false))
    } else {
        let (gs, t) = groups_upto(n, edges, m - 1);
        let s = (m - 1) as usize;
        if t[s as int] {
            (gs, t)
        } else {
            let (c, t2) = gather(s, edges, seq![s], t.update(s as int, true));
            (gs.push(c), t2)
        }
    }
}

/// The connectivity groups of `n` nodes: each node not yet taken, in index order,
/// seeds a group holding itself and then its direct neighbours not yet taken.
pub open spec fn grouping(n: nat, edges: Seq<(usize, usize)>) -> Seq<Seq<usize>> {
    groups_upto(n, edges, n as int).0
}

/// Both ends of every edge are among the `n` nodes.
pub open spec fn edges_within(n: nat, edges: Seq<(usize, usize)>) -> bool {
    forall|j: int| 0 <= j < edges.len() ==> (#[trigger] edges[j]).0 < n && edges[j].1 < n
}

proof fn lemma_gather_len(
    seed: usize,
    edges: Seq<(usize, usize)>,
    members: Seq<usize>,
    taken: Seq<bool>,
)
    requires
        edges_within(taken.len(), edges),
    ensures
        gather(seed, edges, members, taken).1.len() == taken.len(),
    decreases edges.len(),
{
    if edges.len() > 0 {
        lemma_gather_len(seed, edges.drop_last(), members, taken);
    }
}

proof fn lemma_groups_len(n: nat, edges: Seq<(usize, usize)>, m: int)
    requires
        edges_within(n, edges),
        m <= n,
    ensures
        groups_upto(n, edges, m).1.len() == n,
    decreases m,
{
    if m > 0 {
        lemma_groups_len(n, edges, m - 1);
        let (gs, t) = groups_upto(n, edges, m - 1);
        let s = (m - 1) as usize;
        lemma_gather_len(s, edges, seq![s], t.update(s as int, true));
    }
}

/// Node `v` is a member of one of the groups `gs`.
pub open spec fn placed(gs: Seq<Seq<usize>>, v: usize) -> bool {
    exists|k: int, i: int| 0 <= k < gs.len() && 0 <= i < gs[k].len() && #[trigger] gs[k][i] == v
}

/// Some edge joins `a` and `b`, in either direction.
pub open spec fn joined(edges: Seq<(usize, usize)>, a: usize, b: usize) -> bool {
    exists|j: int| 0 <= j < edges.len() && (#[trigger] edges[j] == (a, b) || edges[j] == (b, a))
}

/// No node appears twice in `gs`, within a group or across groups.
pub open spec fn members_distinct(gs: Seq<Seq<usize>>) -> bool {
    forall|k1: int, i1: int, k2: int, i2: int|
        0 <= k1 < gs.len() && 0 <= i1 < gs[k1].len() && 0 <= k2 < gs.len() && 0 <= i2
            < gs[k2].len() && #[trigger] gs[k1][i1] == #[trigger] gs[k2][i2] ==> k1 == k2 && i1
            == i2
}

spec fn groups_ok(n: nat, edges: Seq<(usize, usize)>, gs: Seq<Seq<usize>>, t: Seq<bool>) -> bool {
    &&& t.len() == n
    &&& forall|k: int, i: int|
        0 <= k < gs.len() && 0 <= i < gs[k].len() ==> #[trigger] gs[k][i] < n && t[gs[k][i] as int]
    &&& forall|v: usize| v < n && #[trigger] t[v as int] ==> placed(gs, v)
    &&& members_distinct(gs)
    &&& forall|k: int| 0 <= k < gs.len() ==> (#[trigger] gs[k]).len() >= 1
    &&& forall|k: int, i: int|
        0 <= k < gs.len() && 1 <= i < gs[k].len() ==> joined(edges, gs[k][0], #[trigger] gs[k][i])
}

proof fn lemma_gather(seed: usize, edges: Seq<(usize, usize)>, members: Seq<usize>, taken: Seq<bool>)
    requires
        edges_within(taken.len(), edges),
    ensures
        ({
            let (m, tk) = gather(seed, edges, members, taken);
            &&& tk.len() == taken.len()
            &&& members.len() <= m.len()
            &&& forall|i: int| 0 <= i < members.len() ==> m[i] == members[i]
            &&& forall|i: int|
                members.len() <= i < m.len() ==> #[trigger] m[i] < taken.len() && !taken[m[i] as int]
                    && tk[m[i] as int] && joined(edges, seed, m[i])
            &&& forall|v: int|
                0 <= v < taken.len() && #[trigger] tk[v] && !taken[v] ==> exists|i: int|
                    members.len() <= i < m.len() && m[i] == v
            &&& forall|v: int| 0 <= v < taken.len() && #[trigger] taken[v] ==> tk[v]
            &&& forall|i: int, j: int|
                members.len() <= i < j < m.len() ==> #[trigger] m[i] != #[trigger] m[j]
        }),
    decreases edges.len(),
{
    if edges.len() > 0 {
        let rest = edges.drop_last();
        assert forall|j: int| 0 <= j < rest.len() implies (#[trigger] rest[j]).0 < taken.len()
            && rest[j].1 < taken.len() by {
            assert(rest[j] == edges[j]);
        }
        lemma_gather(seed, rest, members, taken);
        let (m0, t0) = gather(seed, rest, members, taken);
        let e = edges.last();
        assert(edges[edges.len() - 1] == e);
        let (m, tk) = gather(seed, edges, members, taken);
        assert forall|i: int| members.len() <= i < m0.len() implies joined(edges, seed, m0[i]) by {
            assert(joined(rest, seed, m0[i]));
            let j = choose|j: int|
                0 <= j < rest.len() && (#[trigger] rest[j] == (seed, m0[i]) || rest[j] == (
                    m0[i],
                    seed,
                ));
            assert(edges[j] == rest[j]);
        }
        if e.0 == seed && !t0[e.1 as int] {
            assert(m == m0.push(e.1));
            assert(joined(edges, seed, e.1)) by {
                assert(edges[edges.len() - 1] == (seed, e.1));
            }
            assert forall|v: int|
                0 <= v < taken.len() && #[trigger] tk[v] && !taken[v] implies exists|i: int|
                members.len() <= i < m.len() && m[i] == v by {
                if v == e.1 {
                    assert(m[m0.len() as int] == v);
                } else {
                    assert(t0[v]);
                    let i = choose|i: int| members.len() <= i < m0.len() && m0[i] == v;
                    assert(m[i] == v);
                }
            }
        } else if e.1 == seed && !t0[e.0 as int] {
            assert(m == m0.push(e.0));
            assert(joined(edges, seed, e.0)) by {
                assert(edges[edges.len() - 1] == (e.0, seed));
            }
            assert forall|v: int|
                0 <= v < taken.len() && #[trigger] tk[v] && !taken[v] implies exists|i: int|
                members.len() <= i < m.len() && m[i] == v by {
                if v == e.0 {
                    assert(m[m0.len() as int] == v);
                } else {
                    assert(t0[v]);
                    let i = choose|i: int| members.len() <= i < m0.len() && m0[i] == v;
                    assert(m[i] == v);
                }
            }
        }
    }
}

proof fn lemma_groups(n: nat, edges: Seq<(usize, usize)>, m: int)
    requires
        edges_within(n, edges),
        n <= usize::MAX,
        0 <= m <= n,
    ensures
        groups_ok(n, edges, groups_upto(n, edges, m).0, groups_upto(n, edges, m).1),
        forall|v: int| 0 <= v < m ==> #[trigger] groups_upto(n, edges, m).1[v],
    decreases m,
{
    if m > 0 {
        lemma_groups(n, edges, m - 1);
        let (gs, t) = groups_upto(n, edges, m - 1);
        let s = (m - 1) as usize;
        if !t[s as int] {
            let t1 = t.update(s as int, true);
            lemma_gather(s, edges, seq![s], t1);
            let (c, t2) = gather(s, edges, seq![s], t1);
            let gs2 = gs.push(c);
            assert(c[0] == s);
            assert forall|k: int, i: int| 0 <= k < gs2.len() && 0 <= i < gs2[k].len() implies #[trigger] gs2[k][i] < n
                && t2[gs2[k][i] as int] by {
                if k < gs.len() {
                    assert(gs2[k] == gs[k]);
                    assert(t1[gs[k][i] as int]);
                } else if i > 0 {
                    assert(c[i] < n);
                } else {
                    assert(t1[s as int]);
                    assert(gs2[k][i] == s);
                }
            }
            assert forall|v: usize| v < n && #[trigger] t2[v as int] implies placed(gs2, v) by {
                if t[v as int] {
                    let (k, i) = choose|k: int, i: int|
                        0 <= k < gs.len() && 0 <= i < gs[k].len() && #[trigger] gs[k][i] == v;
                    assert(gs2[k][i] == v);
                } else if v == s {
                    assert(gs2[gs.len() as int][0] == v);
                } else {
                    assert(!t1[v as int]);
                    let i = choose|i: int| 1 <= i < c.len() && c[i] == v;
                    assert(gs2[gs.len() as int][i] == v);
                }
            }
            assert forall|k1: int, i1: int, k2: int, i2: int|
                0 <= k1 < gs2.len() && 0 <= i1 < gs2[k1].len() && 0 <= k2 < gs2.len() && 0 <= i2
                    < gs2[k2].len() && #[trigger] gs2[k1][i1] == #[trigger] gs2[k2][i2] implies k1
                == k2 && i1 == i2 by {
                let last = gs.len() as int;
                if k1 < last && k2 < last {
                    assert(gs2[k1] == gs[k1] && gs2[k2] == gs[k2]);
                } else if k1 == last && k2 == last {
                    if i1 != i2 {
                        if i1 == 0 {
                            assert(!t1[c[i2] as int]);
                        } else if i2 == 0 {
                            assert(!t1[c[i1] as int]);
                        } else if i1 < i2 {
                            assert(c[i1] != c[i2]);
                        } else {
                            assert(c[i2] != c[i1]);
                        }
                    }
                } else if k1 < last {
                    assert(gs2[k1] == gs[k1]);
                    assert(t[gs[k1][i1] as int]);
                    if i2 > 0 {
                        assert(!t1[c[i2] as int]);
                    }
                } else {
                    assert(gs2[k2] == gs[k2]);
                    assert(t[gs[k2][i2] as int]);
                    if i1 > 0 {
                        assert(!t1[c[i1] as int]);
                    }
                }
            }
            assert forall|k: int, i: int|
                0 <= k < gs2.len() && 1 <= i < gs2[k].len() implies joined(edges, gs2[k][0], #[trigger] gs2[k][i]) by {
                if k < gs.len() {
                    assert(gs2[k] == gs[k]);
                }
            }
            assert forall|k: int| 0 <= k < gs2.len() implies (#[trigger] gs2[k]).len() >= 1 by {
                if k < gs.len() {
                    assert(gs2[k] == gs[k]);
                }
            }
            assert forall|v: int| 0 <= v < m implies #[trigger] t2[v] by {
                if v < m - 1 {
                    assert(t1[v]);
                }
            }
        }
    }
}

/// The groups split the nodes: every node lies in exactly one group, at one place;
/// each group is non-empty, and each member after the first is joined by an edge to
/// the group's first node.
pub proof fn lemma_grouping_partition(n: nat, edges: Seq<(usize, usize)>)
    requires
        edges_within(n, edges),
        n <= usize::MAX,
    ensures
        forall|k: int, i: int|
            0 <= k < grouping(n, edges).len() && 0 <= i < grouping(n, edges)[k].len()
                ==> #[trigger] grouping(n, edges)[k][i] < n,
        forall|v: usize| v < n ==> #[trigger] placed(grouping(n, edges), v),
        members_distinct(grouping(n, edges)),
        forall|k: int| 0 <= k < grouping(n, edges).len() ==> (#[trigger] grouping(n, edges)[k]).len() >= 1,
        forall|k: int, i: int|
            0 <= k < grouping(n, edges).len() && 1 <= i < grouping(n, edges)[k].len() ==> joined(
                edges,
                grouping(n, edges)[k][0],
                #[trigger] grouping(n, edges)[k][i],
            ),
{
    lemma_groups(n, edges, n as int);
    let t = groups_upto(n, edges, n as int).1;
    assert forall|v: usize| v < n implies #[trigger] placed(grouping(n, edges), v) by {
        assert(t[v as int]);
    }
}

/// Splits `n` nodes into connectivity groups in one sweep: each node not yet taken,
/// in index order, starts a group, and every node joined to it by an edge that is
/// not yet taken follows it, in edge order. A group is a node and some of its
/// direct neighbours, not a whole connected component.
pub fn connectivity_groups(n: usize, edges: &Vec<(usize, usize)>) -> (r: Vec<Vec<usize>>)
    requires
        edges_within(n as nat, edges@),
    ensures
        r.deep_view() == grouping(n as nat, edges@),
{
    let mut taken: Vec<bool> = Vec::new();
    while taken.len() < n
        invariant
            taken@.len() <= n,
            forall|i: int| 0 <= i < taken@.len() ==> !taken@[i],
        decreases n - taken.len(),
    {
        taken.push(false);
    }
    assert(taken@ =~= groups_upto(n as nat, edges@, 0).1);
    let mut groups: Vec<Vec<usize>> = Vec::new();
    let mut i: usize = 0;
    while i < n
        invariant
            edges_within(n as nat, edges@),
            i <= n,
            taken@.len() == n,
            (groups.deep_view(), taken@) == groups_upto(n as nat, edges@, i as int),
        decreases n - i,
    {
        proof {
            lemma_groups_len(n as nat, edges@, i as int);
        }
        if !taken[i] {
            let ghost t0 = taken@.update(i as int, true);
            let mut members: Vec<usize> = vec![i];
            taken.set(i, true);
            let mut j: usize = 0;
            while j < edges.len()
                invariant
                    edges_within(n as nat, edges@),
                    i < n,
                    j <= edges@.len(),
                    taken@.len() == n,
                    t0.len() == n,
                    (members@, taken@) == gather(i, edges@.subrange(0, j as int), seq![i], t0),
                decreases edges.len() - j,
            {
                let (a, b) = edges[j];
                proof {
                    assert(edges@.subrange(0, j + 1).drop_last() =~= edges@.subrange(0, j as int));
                    assert(edges@.subrange(0, j + 1).last() == edges@[j as int]);
                    assert(a < n && b < n);
                }
                if a == i && !taken[b] {
                    members.push(b);
                    taken.set(b, true);
                } else if b == i && !taken[a] {
                    members.push(a);
                    taken.set(a, true);
                }
                j = j + 1;
            }
            proof {
                assert(edges@.subrange(0, edges@.len() as int) =~= edges@);
            }
            let ghost before = groups.deep_view();
            assert(members.deep_view() =~= members@);
            groups.push(members);
            proof {
                assert(groups.deep_view() =~= before.push(members@)) by {
                    assert(groups@[groups@.len() - 1].deep_view() == members@);
                }
            }
        }
        i = i + 1;
    }
    groups
}

} // verus!
