//! Connected-component labelling of a small undirected graph given as
//! adjacency lists. The ship uses it for cable networks, networks bridged by
//! devices, structural compartments and air connectivity across open doors.

use vstd::prelude::*;

verus! {

/// Label of a node that takes part in no component.
pub const NO_LABEL: usize = usize::MAX;

/// `v` is listed as a neighbour of `u`.
pub open spec fn edge(adj: Seq<Seq<usize>>, u: int, v: int) -> bool {
    0 <= u < adj.len() && 0 <= v <= usize::MAX && adj[u].contains(v as usize)
}

/// A walk along edges.
pub open spec fn is_walk(adj: Seq<Seq<usize>>, s: Seq<usize>) -> bool {
    s.len() >= 1 && forall|i: int| 0 <= i < s.len() - 1 ==> #[trigger] edge(adj, s[i] as int, s[i + 1] as int)
}

/// Some walk leads from `u` to `v`.
pub open spec fn linked(adj: Seq<Seq<usize>>, u: int, v: int) -> bool {
    exists|s: Seq<usize>| #[trigger] is_walk(adj, s) && s[0] == u && s.last() == v
}

/// The adjacency lists describe a graph on `0..n` whose edges join active
/// nodes only and go both ways.
pub open spec fn graph_ok(active: Seq<bool>, adj: Seq<Seq<usize>>) -> bool {
    &&& active.len() == adj.len()
    &&& forall|u: int, k: int| 0 <= u < adj.len() && 0 <= k < adj[u].len() ==> (#[trigger] adj[u][k]) < adj.len()
    &&& forall|u: int, v: int| #[trigger] edge(adj, u, v) ==> active[u] && active[v] && edge(adj, v, u)
}

/// `lab` labels the components of the graph, numbered `0..count` in order
/// of their first node: active nodes carry a label below `count`, inactive
/// ones `NO_LABEL`; neighbours share labels; nodes with one label are linked;
/// each label's first node is preceded only by smaller labels.
pub open spec fn labels_components(active: Seq<bool>, adj: Seq<Seq<usize>>, lab: Seq<usize>, count: nat) -> bool {
    &&& lab.len() == active.len()
    &&& count <= active.len()
    &&& forall|i: int| 0 <= i < lab.len() ==> (active[i] <==> #[trigger] lab[i] != NO_LABEL)
    &&& forall|i: int| 0 <= i < lab.len() && active[i] ==> #[trigger] lab[i] < count
    &&& forall|u: int, v: int| #[trigger] edge(adj, u, v) ==> lab[u] == lab[v]
    &&& forall|u: int, v: int|
        0 <= u < lab.len() && 0 <= v < lab.len() && active[u] && active[v] && #[trigger] lab[u]
            == #[trigger] lab[v] ==> linked(adj, u, v)
    &&& forall|c: int| 0 <= c < count ==> #[trigger] has_first(active, lab, c)
}

/// Node `i` is the first node labelled `c`, and only smaller labels come
/// before it.
pub open spec fn first_of_label(active: Seq<bool>, lab: Seq<usize>, c: int, i: int) -> bool {
    0 <= i < lab.len() && lab[i] == c && forall|j: int| 0 <= j < i && active[j] ==> #[trigger] lab[j] < c
}

/// Label `c` is in use, with a first node.
pub open spec fn has_first(active: Seq<bool>, lab: Seq<usize>, c: int) -> bool {
    exists|i: int| #[trigger] first_of_label(active, lab, c, i)
}

/// Number of unlabelled entries.
spec fn count_unlabelled(s: Seq<usize>) -> int
    decreases s.len(),
{
    if s.len() == 0 {
        0
    } else {
        count_unlabelled(s.drop_last()) + if s.last() == NO_LABEL { 1int } else { 0int }
    }
}

proof fn lemma_count_unlabelled_update(s: Seq<usize>, i: int, v: usize)
    requires
        0 <= i < s.len(),
    ensures
        count_unlabelled(s.update(i, v)) == count_unlabelled(s) - (if s[i] == NO_LABEL { 1int } else { 0int })
            + (if v == NO_LABEL { 1int } else { 0int }),
    decreases s.len(),
{
    if i == s.len() - 1 {
        assert(s.update(i, v).drop_last() =~= s.drop_last());
    } else {
        lemma_count_unlabelled_update(s.drop_last(), i, v);
        assert(s.update(i, v).drop_last() =~= s.drop_last().update(i, v));
    }
}

proof fn lemma_count_unlabelled_nonneg(s: Seq<usize>)
    ensures
        count_unlabelled(s) >= 0,
    decreases s.len(),
{
    if s.len() > 0 {
        lemma_count_unlabelled_nonneg(s.drop_last());
    }
}

/// Extending a walk by one edge.
proof fn lemma_linked_step(adj: Seq<Seq<usize>>, u: int, w: int, v: int)
    requires
        linked(adj, u, w),
        edge(adj, w, v),
    ensures
        linked(adj, u, v),
{
    let s = choose|s: Seq<usize>| #[trigger] is_walk(adj, s) && s[0] == u && s.last() == w;
    let t = s.push(v as usize);
    assert forall|i: int| 0 <= i < t.len() - 1 implies #[trigger] edge(adj, t[i] as int, t[i + 1] as int) by {
        if i < s.len() - 1 {
            assert(edge(adj, s[i] as int, s[i + 1] as int));
        }
    }
    assert(is_walk(adj, t));
}

/// Walks in a graph with two-way edges can be reversed.
proof fn lemma_linked_reverse(adj: Seq<Seq<usize>>, u: int, v: int)
    requires
        linked(adj, u, v),
        forall|a: int, b: int| #[trigger] edge(adj, a, b) ==> edge(adj, b, a),
    ensures
        linked(adj, v, u),
{
    let s = choose|s: Seq<usize>| #[trigger] is_walk(adj, s) && s[0] == u && s.last() == v;
    let t = s.reverse();
    assert forall|i: int| 0 <= i < t.len() - 1 implies #[trigger] edge(adj, t[i] as int, t[i + 1] as int) by {
        let j = s.len() - 2 - i;
        assert(edge(adj, s[j] as int, s[j + 1] as int));
        assert(t[i] == s[j + 1]);
        assert(t[i + 1] == s[j]);
    }
    assert(is_walk(adj, t));
}

/// Walks compose.
proof fn lemma_linked_trans(adj: Seq<Seq<usize>>, u: int, w: int, v: int)
    requires
        linked(adj, u, w),
        linked(adj, w, v),
    ensures
        linked(adj, u, v),
{
    let s = choose|s: Seq<usize>| #[trigger] is_walk(adj, s) && s[0] == u && s.last() == w;
    let t = choose|t: Seq<usize>| #[trigger] is_walk(adj, t) && t[0] == w && t.last() == v;
    let c = s + t.drop_first();
    assert forall|i: int| 0 <= i < c.len() - 1 implies #[trigger] edge(adj, c[i] as int, c[i + 1] as int) by {
        if i < s.len() - 1 {
            assert(edge(adj, s[i] as int, s[i + 1] as int));
        } else if i == s.len() - 1 {
            assert(c[i] == w);
            assert(t.len() >= 2);
            let z: int = 0;
            assert(edge(adj, t[z] as int, t[z + 1] as int));
            assert(c[i + 1] == t[1]);
        } else {
            let j = i - s.len() + 1;
            assert(edge(adj, t[j] as int, t[j + 1] as int));
        }
    }
    if t.len() == 1 {
        assert(c =~= s);
    }
    assert(is_walk(adj, c));
}

proof fn lemma_linked_refl(adj: Seq<Seq<usize>>, u: int)
    requires
        0 <= u <= usize::MAX,
    ensures
        linked(adj, u, u),
{
    let s = seq![u as usize];
    assert(is_walk(adj, s));
}

/// Label the connected components of the active nodes (depth-first, seeds
/// taken in index order).
pub fn label_components(active: &Vec<bool>, adj: &Vec<Vec<usize>>) -> (r: (Vec<usize>, usize))
    requires
        graph_ok(active@, adj@.map_values(|l: Vec<usize>| l@)),
        adj@.len() < usize::MAX,
    ensures
        labels_components(active@, adj@.map_values(|l: Vec<usize>| l@), r.0@, r.1 as nat),
{
    let ghost g = adj@.map_values(|l: Vec<usize>| l@);
    let n = active.len();
    let mut lab: Vec<usize> = vec![NO_LABEL; n];
    let mut count: usize = 0;
    let ghost mut seeds: Seq<usize> = seq![];
    let mut s: usize = 0;
    while s < n
        invariant
            g == adj@.map_values(|l: Vec<usize>| l@),
            graph_ok(active@, g),
            n == active@.len(),
            n == g.len(),
            n < usize::MAX,
            lab@.len() == n,
            0 <= s <= n,
            count <= s,
            seeds.len() == count,
            forall|i: int| 0 <= i < n && #[trigger] lab@[i] != NO_LABEL ==> active@[i] && lab@[i] < count,
            forall|i: int| 0 <= i < s && active@[i] ==> #[trigger] lab@[i] != NO_LABEL,
            forall|u: int, k: int|
                0 <= u < n && lab@[u] != NO_LABEL && 0 <= k < g[u].len() ==> #[trigger] lab@[g[u][k] as int]
                    == lab@[u],
            forall|c: int| 0 <= c < count ==> (#[trigger] seeds[c]) < s && lab@[seeds[c] as int] == c,
            forall|c: int, j: int| #![trigger seeds[c], lab@[j]] 0 <= c < count && 0 <= j < seeds[c] && active@[j] ==> lab@[j] < c,
            forall|u: int| 0 <= u < n && lab@[u] != NO_LABEL ==> #[trigger] linked(g, seeds[lab@[u] as int] as int, u),
        decreases n - s,
    {
        if active[s] && lab[s] == NO_LABEL {
            let c = count;
            lab.set(s, c);
            proof {
                seeds = seeds.push(s);
                lemma_linked_refl(g, s as int);
            }
            let mut stack: Vec<usize> = Vec::new();
            stack.push(s);
            proof {
                lemma_count_unlabelled_nonneg(lab@);
                assert(stack@[0] == s);
                assert forall|u: int, k: int|
                    0 <= u < n && lab@[u] != NO_LABEL && !stack@.contains(u as usize) && 0 <= k < g[u].len()
                        implies #[trigger] lab@[g[u][k] as int] == lab@[u] by {
                    assert(u != s);
                    let x = g[u][k] as int;
                    assert(edge(g, u, x));
                    if x == s {
                        assert(edge(g, x, u));
                    }
                }
            }
            while stack.len() > 0
                invariant
                    g == adj@.map_values(|l: Vec<usize>| l@),
                    graph_ok(active@, g),
                    n == active@.len(),
                    n == g.len(),
                    n < usize::MAX,
                    lab@.len() == n,
                    0 <= s < n,
                    c == count,
                    count <= s,
                    seeds.len() == count + 1,
                    seeds[c as int] == s,
                    lab@[s as int] == c,
                    forall|i: int| 0 <= i < n && #[trigger] lab@[i] != NO_LABEL ==> active@[i] && lab@[i] <= c,
                    forall|i: int| 0 <= i < s && active@[i] ==> #[trigger] lab@[i] != NO_LABEL && lab@[i] < c,
                    forall|j: int| 0 <= j < stack@.len() ==> (#[trigger] stack@[j]) < n && lab@[stack@[j] as int] == c,
                    forall|u: int, k: int|
                        0 <= u < n && lab@[u] != NO_LABEL && !stack@.contains(u as usize) && 0 <= k < g[u].len()
                            ==> #[trigger] lab@[g[u][k] as int] == lab@[u],
                    forall|cc: int| 0 <= cc < count ==> (#[trigger] seeds[cc]) < s && lab@[seeds[cc] as int] == cc,
                    forall|cc: int, j: int|
                        #![trigger seeds[cc], lab@[j]]
                        0 <= cc <= count && 0 <= j < seeds[cc] && active@[j] ==> lab@[j] < cc,
                    forall|u: int| 0 <= u < n && lab@[u] != NO_LABEL ==> #[trigger] linked(g, seeds[lab@[u] as int] as int, u),
                decreases 2 * count_unlabelled(lab@) + stack@.len(),
            {
                let ghost stack_before = stack@;
                let u = stack.pop().unwrap();
                proof {
                    assert(stack_before =~= stack@.push(u));
                    assert(stack_before[stack_before.len() - 1] == u);
                }
                let ghost measure0 = 2 * count_unlabelled(lab@) + stack@.len() + 1;
                let ul = &adj[u];
                let m = ul.len();
                assert(g[u as int] == ul@);
                let mut k: usize = 0;
                while k < m
                    invariant
                        g == adj@.map_values(|l: Vec<usize>| l@),
                        graph_ok(active@, g),
                        n == active@.len(),
                        n == g.len(),
                        n < usize::MAX,
                        lab@.len() == n,
                        0 <= s < n,
                        c == count,
                        count <= s,
                        seeds.len() == count + 1,
                        seeds[c as int] == s,
                        lab@[s as int] == c,
                        u < n,
                        lab@[u as int] == c,
                        g[u as int] == ul@,
                        m == ul@.len(),
                        0 <= k <= m,
                        forall|i: int| 0 <= i < n && #[trigger] lab@[i] != NO_LABEL ==> active@[i] && lab@[i] <= c,
                        forall|i: int| 0 <= i < s && active@[i] ==> #[trigger] lab@[i] != NO_LABEL && lab@[i] < c,
                        forall|j: int| 0 <= j < stack@.len() ==> (#[trigger] stack@[j]) < n && lab@[stack@[j] as int] == c,
                        forall|kk: int| 0 <= kk < k ==> #[trigger] lab@[g[u as int][kk] as int] == c,
                        forall|v: int, kk: int|
                            0 <= v < n && v != u && lab@[v] != NO_LABEL && !stack@.contains(v as usize) && 0 <= kk
                                < g[v].len() ==> #[trigger] lab@[g[v][kk] as int] == lab@[v],
                        forall|cc: int| 0 <= cc < count ==> (#[trigger] seeds[cc]) < s && lab@[seeds[cc] as int] == cc,
                        forall|cc: int, j: int|
                            #![trigger seeds[cc], lab@[j]]
                            0 <= cc <= count && 0 <= j < seeds[cc] && active@[j] ==> lab@[j] < cc,
                        forall|v: int| 0 <= v < n && lab@[v] != NO_LABEL ==> #[trigger] linked(g, seeds[lab@[v] as int] as int, v),
                        2 * count_unlabelled(lab@) + stack@.len() < measure0,
                    decreases m - k,
                {
                    let v = ul[k];
                    assert(v == g[u as int][k as int]);
                    assert(edge(g, u as int, v as int));
                    if lab[v] == NO_LABEL {
                        let ghost old_lab = lab@;
                        let ghost old_stack = stack@;
                        proof {
                            lemma_count_unlabelled_update(lab@, v as int, c);
                        }
                        lab.set(v, c);
                        stack.push(v);
                        proof {
                            lemma_linked_step(g, s as int, u as int, v as int);
                            assert forall|w: int| 0 <= w < n && lab@[w] != NO_LABEL implies #[trigger] linked(
                                g,
                                seeds[lab@[w] as int] as int,
                                w,
                            ) by {
                                if w != v {
                                    assert(old_lab[w] != NO_LABEL);
                                }
                            }
                            assert forall|w: int, kk: int|
                                0 <= w < n && w != u && lab@[w] != NO_LABEL && !stack@.contains(w as usize) && 0
                                    <= kk < g[w].len() implies #[trigger] lab@[g[w][kk] as int] == lab@[w] by {
                                assert(w != v) by {
                                    if w == v {
                                        assert(stack@[stack@.len() - 1] == v);
                                    }
                                }
                                assert(old_lab[w] != NO_LABEL);
                                assert(!old_stack.contains(w as usize)) by {
                                    if old_stack.contains(w as usize) {
                                        let j = choose|j: int| 0 <= j < old_stack.len() && old_stack[j] == w as usize;
                                        assert(stack@[j] == old_stack[j]);
                                    }
                                }
                                let x = g[w][kk] as int;
                                assert(old_lab[g[w][kk] as int] == old_lab[w]);
                                if x == v {
                                    // `v` was unlabelled, but a closed labelled
                                    // neighbour would have labelled it.
                                    assert(old_lab[x] == NO_LABEL);
                                }
                            }
                        }
                    } else {
                        proof {
                            // Already labelled: the edge goes both ways, so the
                            // neighbour's label agrees with `u`'s.
                            assert(edge(g, v as int, u as int));
                            let kv = choose|kv: int| 0 <= kv < g[v as int].len() && g[v as int][kv] == u;
                            if lab@[v as int] != c {
                                if !stack@.contains(v) {
                                    if v != u {
                                        assert(lab@[g[v as int][kv] as int] == lab@[v as int]);
                                    }
                                } else {
                                    let j = choose|j: int| 0 <= j < stack@.len() && stack@[j] == v;
                                    assert(lab@[stack@[j] as int] == c);
                                }
                            }
                        }
                    }
                    k = k + 1;
                }
                proof {
                    lemma_count_unlabelled_nonneg(lab@);
                    assert forall|v: int, kk: int|
                        0 <= v < n && lab@[v] != NO_LABEL && !stack@.contains(v as usize) && 0 <= kk < g[v].len()
                            implies #[trigger] lab@[g[v][kk] as int] == lab@[v] by {
                        if v == u {
                            assert(lab@[g[u as int][kk] as int] == c);
                        }
                    }
                }
            }
            count = count + 1;
            proof {
                assert forall|i: int| 0 <= i < s + 1 && active@[i] implies #[trigger] lab@[i] != NO_LABEL by {
                    if i == s {
                    }
                }
            }
        }
        s = s + 1;
    }
    proof {
        let lab_s = lab@;
        assert forall|u: int, v: int| #[trigger] edge(g, u, v) implies lab_s[u] == lab_s[v] by {
            let kk = choose|kk: int| 0 <= kk < g[u].len() && g[u][kk] == v;
            assert(lab_s[g[u][kk] as int] == lab_s[u]);
        }
        assert forall|u: int, v: int|
            0 <= u < n && 0 <= v < n && active@[u] && active@[v] && #[trigger] lab_s[u] == #[trigger] lab_s[v]
                implies linked(g, u, v) by {
            let sd = seeds[lab_s[u] as int] as int;
            assert(linked(g, sd, u));
            assert(linked(g, sd, v));
            lemma_linked_reverse(g, sd, u);
            lemma_linked_trans(g, u, sd, v);
        }
        assert forall|cc: int| 0 <= cc < count implies #[trigger] has_first(active@, lab_s, cc) by {
            let i = seeds[cc] as int;
            assert(first_of_label(active@, lab_s, cc, i));
        }
    }
    (lab, count)
}


/// Along a walk every node carries the label of its first node.
proof fn lemma_walk_same_label(active: Seq<bool>, adj: Seq<Seq<usize>>, lab: Seq<usize>, count: nat, s: Seq<usize>, k: int)
    requires
        labels_components(active, adj, lab, count),
        is_walk(adj, s),
        0 <= k < s.len(),
    ensures
        lab[s[k] as int] == lab[s[0] as int],
    decreases k,
{
    if k > 0 {
        lemma_walk_same_label(active, adj, lab, count, s, k - 1);
        let j = k - 1;
        assert(edge(adj, s[j] as int, s[j + 1] as int));
    }
}

/// Linked nodes carry the same label: labels are exactly the components.
pub proof fn lemma_linked_same_label(active: Seq<bool>, adj: Seq<Seq<usize>>, lab: Seq<usize>, count: nat, u: int, v: int)
    requires
        labels_components(active, adj, lab, count),
        linked(adj, u, v),
    ensures
        lab[u] == lab[v],
{
    let s = choose|s: Seq<usize>| #[trigger] is_walk(adj, s) && s[0] == u && s.last() == v;
    lemma_walk_same_label(active, adj, lab, count, s, s.len() - 1);
}

} // verus!
