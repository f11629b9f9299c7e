//! The dependency graph builder: deduplicates documents into nodes, turns
//! prerequisites into edges between node indices, drops self-references,
//! unresolved references and cycle-closing edges with a warning each, and
//! returns a graph proved acyclic with every edge endpoint a real node.
use vstd::prelude::*;
use crate::document::{DocView, Document};
use crate::text::str_eq;
use crate::warning::{WarnView, Warning};

verus! {

/// Why the builder can fail: nothing at all to build from.
#[derive(Clone, Copy, PartialEq, Eq, Structural, Debug)]
pub enum BuildError {
    EmptyCorpus,
}

/// The validated dependency graph. An edge `(p, c)` means node `p` is a
/// prerequisite of node `c`, both as indices into `nodes`.
pub struct Graph {
    pub nodes: Vec<Document>,
    pub edges: Vec<(usize, usize)>,
}

/// Edge pairs as mathematical integers.
pub open spec fn ev(s: Seq<(usize, usize)>) -> Seq<(int, int)> {
    s.map_values(|e: (usize, usize)| (e.0 as int, e.1 as int))
}

/// `p` walks along edges of `edges`: every consecutive pair is an edge.
pub open spec fn is_path(edges: Seq<(int, int)>, p: Seq<int>) -> bool {
    p.len() >= 1 && forall|k: int|
        0 <= k < p.len() - 1 ==> edges.contains((#[trigger] p[k], p[k + 1]))
}

/// `b` can be reached from `a` along zero or more edges.
pub open spec fn reaches(edges: Seq<(int, int)>, a: int, b: int) -> bool {
    exists|p: Seq<int>| is_path(edges, p) && p.first() == a && p.last() == b
}

/// No edge closes a cycle: for every edge `(a, b)`, `a` is not reachable
/// back from `b`. Equivalent to the absence of any cyclic path.
pub open spec fn acyclic(edges: Seq<(int, int)>) -> bool {
    forall|k: int|
        0 <= k < edges.len() ==> !reaches(edges, #[trigger] edges[k].1, edges[k].0)
}

pub proof fn lemma_reaches_refl(edges: Seq<(int, int)>, a: int)
    ensures
        reaches(edges, a, a),
{
    let p = seq![a];
    assert(is_path(edges, p) && p.first() == a && p.last() == a);
}

pub proof fn lemma_reaches_step(edges: Seq<(int, int)>, a: int, b: int)
    requires
        edges.contains((a, b)),
    ensures
        reaches(edges, a, b),
{
    let p = seq![a, b];
    assert(is_path(edges, p) && p.first() == a && p.last() == b);
}

pub proof fn lemma_reaches_trans(edges: Seq<(int, int)>, a: int, b: int, c: int)
    requires
        reaches(edges, a, b),
        reaches(edges, b, c),
    ensures
        reaches(edges, a, c),
{
    let p = choose|p: Seq<int>| is_path(edges, p) && p.first() == a && p.last() == b;
    let q = choose|q: Seq<int>| is_path(edges, q) && q.first() == b && q.last() == c;
    if q.len() == 1 {
        assert(is_path(edges, p) && p.first() == a && p.last() == c);
    } else {
        let r = p + q.skip(1);
        assert(r.len() == p.len() + q.len() - 1);
        assert forall|k: int| 0 <= k < r.len() - 1 implies edges.contains(((#[trigger] r[k]), r[k + 1])) by {
            if k < p.len() - 1 {
                assert(r[k] == p[k] && r[k + 1] == p[k + 1]);
            } else if k == p.len() - 1 {
                assert(r[k] == p[k] && p[k] == b);
                assert(r[k + 1] == q.skip(1)[0] && q.skip(1)[0] == q[1]);
                assert(edges.contains((q[0], q[1])));
            } else {
                assert(r[k] == q.skip(1)[k - p.len()] && q.skip(1)[k - p.len()] == q[k - p.len()
                    + 1]);
                assert(r[k + 1] == q.skip(1)[k + 1 - p.len()] && q.skip(1)[k + 1 - p.len()] == q[k
                    - p.len() + 2]);
                assert(edges.contains((q[k - p.len() + 1], q[k - p.len() + 2])));
            }
        }
        assert(r.first() == p.first());
        assert(r.last() == q.skip(1)[q.len() - 2] && q.skip(1)[q.len() - 2] == q[q.len() - 1]);
        assert(is_path(edges, r) && r.first() == a && r.last() == c);
    }
}

/// A path over `e.push(x)` either avoids `x`, or shows that `x.0` is
/// reachable from its start and its end is reachable from `x.1`, both
/// within `e` alone.
#[verifier::rlimit(60)]
proof fn lemma_path_decompose(e: Seq<(int, int)>, x: (int, int), p: Seq<int>)
    requires
        is_path(e.push(x), p),
    ensures
        is_path(e, p) || (reaches(e, p.first(), x.0) && reaches(e, x.1, p.last())),
    decreases p.len(),
{
    if p.len() == 1 {
        assert(is_path(e, p));
    } else {
        let tail = p.skip(1);
        assert(e.push(x).contains((p[0], p[1])));
        assert forall|k: int| 0 <= k < tail.len() - 1 implies e.push(x).contains(
            ((#[trigger] tail[k]), tail[k + 1]),
        ) by {
            assert(tail[k] == p[k + 1] && tail[k + 1] == p[k + 2]);
            assert(e.push(x).contains((p[k + 1], p[k + 2])));
        }
        assert(is_path(e.push(x), tail));
        lemma_path_decompose(e, x, tail);
        assert(tail.first() == p[1] && tail.last() == p.last());
        let j = choose|j: int| 0 <= j < e.push(x).len() && e.push(x)[j] == (p[0], p[1]);
        if j < e.len() {
            // the first edge of the path lies in `e`
            assert(e.contains((p[0], p[1])));
            if is_path(e, tail) {
                assert forall|k: int| 0 <= k < p.len() - 1 implies e.contains(
                    ((#[trigger] p[k]), p[k + 1]),
                ) by {
                    if k > 0 {
                        assert(tail[k - 1] == p[k] && tail[k] == p[k + 1]);
                        assert(e.contains((tail[k - 1], tail[k])));
                    }
                }
                assert(is_path(e, p));
            } else {
                lemma_reaches_step(e, p[0], p[1]);
                lemma_reaches_trans(e, p[0], p[1], x.0);
            }
        } else {
            // the first edge of the path is `x` itself
            assert(e.push(x)[j] == x);
            assert(p[0] == x.0 && p[1] == x.1);
            lemma_reaches_refl(e, x.0);
            if is_path(e, tail) {
                assert(reaches(e, x.1, p.last()));
            } else {
                assert(reaches(e, x.1, p.last()));
            }
        }
    }
}

/// Appending an edge that closes no cycle keeps the edge set acyclic.
pub proof fn lemma_acyclic_push(e: Seq<(int, int)>, x: (int, int))
    requires
        acyclic(e),
        x.0 != x.1,
        !reaches(e, x.1, x.0),
    ensures
        acyclic(e.push(x)),
{
    let e2 = e.push(x);
    assert forall|k: int| 0 <= k < e2.len() implies !reaches(e2, #[trigger] e2[k].1, e2[k].0) by {
        if reaches(e2, e2[k].1, e2[k].0) {
            let a = e2[k].0;
            let b = e2[k].1;
            let p = choose|p: Seq<int>| is_path(e2, p) && p.first() == b && p.last() == a;
            lemma_path_decompose(e, x, p);
            if is_path(e, p) {
                if k < e.len() {
                    assert(reaches(e, e[k].1, e[k].0));
                } else {
                    assert(a == x.0 && b == x.1);
                    assert(reaches(e, x.1, x.0));
                }
            } else {
                assert(reaches(e, b, x.0) && reaches(e, x.1, a));
                if k < e.len() {
                    assert(e.contains((a, b)));
                    lemma_reaches_step(e, a, b);
                    lemma_reaches_trans(e, x.1, a, b);
                    lemma_reaches_trans(e, x.1, b, x.0);
                } else {
                    assert(b == x.1);
                    assert(reaches(e, x.1, x.0));
                }
            }
            assert(false);
        }
    }
}

/// Along a closed set of marks, a path never leaves the marked nodes.
proof fn lemma_closed_path(ev: Seq<(int, int)>, vis: Seq<bool>, p: Seq<int>)
    requires
        is_path(ev, p),
        0 <= p.first() < vis.len(),
        vis[p.first()],
        forall|a: int, b: int| ev.contains((a, b)) ==> 0 <= a < vis.len() && 0 <= b < vis.len(),
        forall|a: int, b: int|
            0 <= a < vis.len() && vis[a] && ev.contains((a, b)) ==> vis[b],
    ensures
        0 <= p.last() < vis.len(),
        vis[p.last()],
    decreases p.len(),
{
    if p.len() > 1 {
        assert(ev.contains((p[0], p[1])));
        let tail = p.skip(1);
        assert forall|k: int| 0 <= k < tail.len() - 1 implies ev.contains(
            ((#[trigger] tail[k]), tail[k + 1]),
        ) by {
            assert(tail[k] == p[k + 1] && tail[k + 1] == p[k + 2]);
            assert(ev.contains((p[k + 1], p[k + 2])));
        }
        assert(is_path(ev, tail));
        assert(tail.first() == p[1] && tail.last() == p.last());
        lemma_closed_path(ev, vis, tail);
    }
}

/// Number of `true` entries.
spec fn count_true(s: Seq<bool>) -> nat
    decreases s.len(),
{
    if s.len() == 0 {
        0
    } else {
        count_true(s.drop_last()) + if s.last() {
            1nat
        } else {
            0nat
        }
    }
}

proof fn lemma_count_true_le(s: Seq<bool>)
    ensures
        count_true(s) <= s.len(),
    decreases s.len(),
{
    if s.len() > 0 {
        lemma_count_true_le(s.drop_last());
    }
}

proof fn lemma_count_true_update(s: Seq<bool>, i: int)
    requires
        0 <= i < s.len(),
        !s[i],
    ensures
        count_true(s.update(i, true)) == count_true(s) + 1,
    decreases s.len(),
{
    let s2 = s.update(i, true);
    if i == s.len() - 1 {
        assert(s2.drop_last() =~= s.drop_last());
        assert(s2.last() && !s.last());
    } else {
        assert(s2.drop_last() =~= s.drop_last().update(i, true));
        assert(s2.last() == s.last());
        lemma_count_true_update(s.drop_last(), i);
    }
}

/// Decides reachability over the current edge set by a depth-first walk.
#[verifier::rlimit(80)]
fn can_reach(edges: &Vec<(usize, usize)>, n: usize, from: usize, to: usize) -> (r: bool)
    requires
        forall|k: int| 0 <= k < edges@.len() ==> (#[trigger] edges@[k]).0 < n && edges@[k].1 < n,
        from < n,
        to < n,
    ensures
        r == reaches(ev(edges@), from as int, to as int),
{
    let ghost g = ev(edges@);
    proof {
        assert forall|a: int, b: int| g.contains((a, b)) implies 0 <= a < n && 0 <= b < n by {
            let k = choose|k: int| 0 <= k < g.len() && g[k] == (a, b);
            assert(g[k] == (edges@[k].0 as int, edges@[k].1 as int));
        }
    }
    if from == to {
        proof {
            lemma_reaches_refl(g, from as int);
        }
        return true;
    }
    let mut visited: Vec<bool> = Vec::new();
    let mut i: usize = 0;
    while i < n
        invariant
            0 <= i <= n,
            visited@.len() == i,
            forall|k: int| 0 <= k < i ==> !visited@[k],
        decreases n - i,
    {
        visited.push(false);
        i = i + 1;
    }
    visited.set(from, true);
    let mut stack: Vec<usize> = Vec::new();
    stack.push(from);
    proof {
        lemma_reaches_refl(g, from as int);
        lemma_count_true_le(visited@);
        assert(stack@[0] == from);
        assert(stack@.contains(from));
    }
    loop
        invariant_except_break
            visited@.len() == n,
            from < n,
            to < n,
            from != to,
            g == ev(edges@),
            forall|k: int| 0 <= k < edges@.len() ==> (#[trigger] edges@[k]).0 < n
                && edges@[k].1 < n,
            forall|s: int| 0 <= s < stack@.len() ==> (#[trigger] stack@[s]) < n,
            forall|s: int| 0 <= s < stack@.len() ==> visited@[(#[trigger] stack@[s]) as int],
            visited@[from as int],
            !visited@[to as int],
            count_true(visited@) <= n,
            forall|y: int| 0 <= y < n && visited@[y] ==> reaches(g, from as int, y),
            forall|y: int|
                0 <= y < n && visited@[y] && !stack@.contains(y as usize) ==> (forall|b: int|
                    g.contains((y, b)) ==> visited@[b]),
        ensures
            !reaches(g, from as int, to as int),
        decreases 2 * (n - count_true(visited@)) + stack@.len(),
    {
        let ghost vis0 = visited@;
        let ghost stack0 = stack@;
        let popped = stack.pop();
        match popped {
            None => {
                proof {
                    if reaches(g, from as int, to as int) {
                        let p = choose|p: Seq<int>|
                            is_path(g, p) && p.first() == from as int && p.last() == to as int;
                        lemma_closed_path(g, visited@, p);
                    }
                }
                break;
            },
            Some(x) => {
                proof {
                    assert(stack0[stack0.len() - 1] == x);
                    assert(visited@[x as int] && x < n);
                    assert forall|y: usize| stack@.contains(y) implies stack0.contains(y) by {
                        let s = choose|s: int| 0 <= s < stack@.len() && stack@[s] == y;
                        assert(stack0[s] == y);
                    }
                    assert forall|y: usize| stack0.contains(y) && y != x implies
                        stack@.contains(y) by {
                        let s = choose|s: int| 0 <= s < stack0.len() && stack0[s] == y;
                        assert(s < stack0.len() - 1);
                        assert(stack@[s] == y);
                    }
                }
                let mut m: usize = 0;
                while m < edges.len()
                    invariant
                        visited@.len() == n,
                        from < n,
                        to < n,
                        from != to,
                        x < n,
                        g == ev(edges@),
                        forall|k: int| 0 <= k < edges@.len() ==> (#[trigger] edges@[k]).0 < n
                            && edges@[k].1 < n,
                        forall|s: int| 0 <= s < stack@.len() ==> (#[trigger] stack@[s]) < n,
                        forall|s: int|
                            0 <= s < stack@.len() ==> visited@[(#[trigger] stack@[s]) as int],
                        visited@[from as int],
                        !visited@[to as int],
                        visited@[x as int],
                        count_true(visited@) <= n,
                        forall|y: int| 0 <= y < n && visited@[y] ==> reaches(g, from as int, y),
                        forall|y: int|
                            0 <= y < n && visited@[y] && y != x && !stack@.contains(y as usize)
                                ==> (forall|b: int| g.contains((y, b)) ==> visited@[b]),
                        forall|k: int|
                            0 <= k < m && (#[trigger] edges@[k]).0 == x ==> visited@[edges@[
                                k].1 as int],
                        forall|y: int| 0 <= y < n && vis0[y] ==> visited@[y],
                        2 * (n - count_true(visited@)) + stack@.len() <= 2 * (n - count_true(
                            vis0,
                        )) + stack0.len() - 1,
                    decreases edges.len() - m,
                {
                    let e = edges[m];
                    if e.0 == x {
                        if !visited[e.1] {
                            proof {
                                assert(g[m as int] == (e.0 as int, e.1 as int));
                                assert(g.contains((x as int, e.1 as int)));
                                lemma_reaches_step(g, x as int, e.1 as int);
                                lemma_reaches_trans(g, from as int, x as int, e.1 as int);
                                lemma_count_true_update(visited@, e.1 as int);
                            }
                            if e.1 == to {
                                return true;
                            }
                            let ghost vis_b = visited@;
                            let ghost stack_b = stack@;
                            visited.set(e.1, true);
                            stack.push(e.1);
                            proof {
                                lemma_count_true_le(visited@);
                                assert(stack@[stack@.len() - 1] == e.1);
                                assert(stack@.contains(e.1));
                                assert forall|y: usize| stack_b.contains(y) implies
                                    stack@.contains(y) by {
                                    let s = choose|s: int|
                                        0 <= s < stack_b.len() && stack_b[s] == y;
                                    assert(stack@[s] == y);
                                }
                            }
                        }
                    }
                    m = m + 1;
                }
                proof {
                    // x is now closed: every successor is marked
                    assert forall|y: int|
                        0 <= y < n && visited@[y] && !stack@.contains(y as usize) implies (
                    forall|b: int| g.contains((y, b)) ==> visited@[b]) by {
                        if y == x {
                            assert forall|b: int| g.contains((y, b)) implies visited@[b] by {
                                let k = choose|k: int| 0 <= k < g.len() && g[k] == (y, b);
                                assert(g[k] == (edges@[k].0 as int, edges@[k].1 as int));
                                assert(edges@[k].0 == x);
                                assert(visited@[edges@[k].1 as int]);
                            }
                        }
                    }
                }
            },
        }
    }
    false
}

/// First index among `nodes` whose id is `id`, or `nodes.len()` if none.
pub open spec fn id_index(nodes: Seq<DocView>, id: Seq<char>) -> nat
    decreases nodes.len(),
{
    if nodes.len() == 0 {
        0
    } else if nodes[0].id == id {
        0
    } else {
        1 + id_index(nodes.skip(1), id)
    }
}

pub open spec fn has_id(nodes: Seq<DocView>, id: Seq<char>) -> bool {
    id_index(nodes, id) < nodes.len()
}

pub proof fn lemma_id_index(nodes: Seq<DocView>, id: Seq<char>)
    ensures
        id_index(nodes, id) <= nodes.len(),
        forall|j: int| 0 <= j < id_index(nodes, id) ==> nodes[j].id != id,
        id_index(nodes, id) < nodes.len() ==> nodes[id_index(nodes, id) as int].id == id,
    decreases nodes.len(),
{
    if nodes.len() == 0 {
    } else if nodes[0].id == id {
    } else {
        lemma_id_index(nodes.skip(1), id);
        assert forall|j: int| 0 <= j < id_index(nodes, id) implies nodes[j].id != id by {
            if j > 0 {
                assert(nodes.skip(1)[j - 1] == nodes[j]);
            }
        }
        if id_index(nodes, id) < nodes.len() {
            assert(nodes.skip(1)[id_index(nodes, id) - 1] == nodes[id_index(nodes, id) as int]);
        }
    }
}

proof fn lemma_id_index_unique(nodes: Seq<DocView>, id: Seq<char>, i: int)
    requires
        0 <= i <= nodes.len(),
        forall|j: int| 0 <= j < i ==> nodes[j].id != id,
        i < nodes.len() ==> nodes[i].id == id,
    ensures
        i == id_index(nodes, id),
    decreases nodes.len(),
{
    if nodes.len() == 0 {
    } else if nodes[0].id == id {
        assert(i == 0);
    } else {
        assert(i != 0);
        assert forall|j: int| 0 <= j < i - 1 implies nodes.skip(1)[j].id != id by {
            assert(nodes.skip(1)[j] == nodes[j + 1]);
        }
        if i - 1 < nodes.skip(1).len() {
            assert(nodes.skip(1)[i - 1] == nodes[i]);
        }
        lemma_id_index_unique(nodes.skip(1), id, i - 1);
    }
}

/// No two nodes share an id.
pub open spec fn unique_ids(nodes: Seq<DocView>) -> bool {
    forall|i: int, j: int| 0 <= i < j < nodes.len() ==> nodes[i].id != nodes[j].id
}

/// First index among the built nodes whose id is `id`, pinned to
/// `id_index`.
fn find_node(nodes: &Vec<Document>, id: &str) -> (r: usize)
    ensures
        r as nat == id_index(nodes@.map_values(|d: Document| d@), id@),
{
    let ghost nv = nodes@.map_values(|d: Document| d@);
    let mut i: usize = 0;
    while i < nodes.len()
        invariant
            0 <= i <= nodes.len(),
            nv == nodes@.map_values(|d: Document| d@),
            nv.len() == nodes@.len(),
            forall|j: int| 0 <= j < i ==> nv[j].id != id@,
        decreases nodes.len() - i,
    {
        if str_eq(nodes[i].id.as_str(), id) {
            proof {
                assert(nv[i as int] == nodes@[i as int]@);
                lemma_id_index_unique(nv, id@, i as int);
            }
            return i;
        }
        proof {
            assert(nv[i as int] == nodes@[i as int]@);
        }
        i = i + 1;
    }
    proof {
        lemma_id_index_unique(nv, id@, nodes@.len() as int);
    }
    nodes.len()
}

/// Node set after first-seen deduplication, with one warning per dropped
/// duplicate.
pub open spec fn spec_dedup(docs: Seq<DocView>) -> (Seq<DocView>, Seq<WarnView>)
    decreases docs.len(),
{
    if docs.len() == 0 {
        (Seq::empty(), Seq::empty())
    } else {
        let prev = spec_dedup(docs.drop_last());
        let d = docs.last();
        if has_id(prev.0, d.id) {
            (prev.0, prev.1.push(WarnView::DuplicateId { id: d.id, file_path: d.file_path }))
        } else {
            (prev.0.push(d), prev.1)
        }
    }
}

pub proof fn lemma_dedup_props(docs: Seq<DocView>)
    ensures
        unique_ids(spec_dedup(docs).0),
        docs.len() > 0 ==> spec_dedup(docs).0.len() > 0,
    decreases docs.len(),
{
    if docs.len() > 0 {
        lemma_dedup_props(docs.drop_last());
        let prev = spec_dedup(docs.drop_last());
        let d = docs.last();
        if !has_id(prev.0, d.id) {
            lemma_id_index(prev.0, d.id);
            let r = prev.0.push(d);
            assert forall|i: int, j: int| 0 <= i < j < r.len() implies r[i].id != r[j].id by {
                if j == r.len() - 1 {
                    assert(r[i] == prev.0[i] && r[j] == d);
                    if prev.0[i].id == d.id {
                        lemma_id_index_unique(prev.0, d.id, ({
                            let w = choose|w: int|
                                0 <= w < prev.0.len() && prev.0[w].id == d.id && (forall|v: int|
                                    0 <= v < w ==> prev.0[v].id != d.id);
                            w
                        }));
                    }
                    assert(prev.0[i].id != d.id) by {
                        if prev.0[i].id == d.id {
                            lemma_id_index(prev.0, d.id);
                            assert(has_id(prev.0, d.id)) by {
                                lemma_id_index_first_match(prev.0, d.id, i);
                            }
                        }
                    }
                } else {
                    assert(r[i] == prev.0[i] && r[j] == prev.0[j]);
                }
            }
        }
    }
}

/// If some node carries `id`, then `id_index` lands within bounds.
proof fn lemma_id_index_first_match(nodes: Seq<DocView>, id: Seq<char>, i: int)
    requires
        0 <= i < nodes.len(),
        nodes[i].id == id,
    ensures
        has_id(nodes, id),
    decreases nodes.len(),
{
    lemma_id_index(nodes, id);
    if id_index(nodes, id) >= nodes.len() {
        assert(nodes[i].id != id);
    }
}

/// One prerequisite of the document at node index `di` applied to the
/// running edge set: self-references and cycle-closing edges are dropped
/// with a cycle warning, unknown ids with an unresolved-reference warning,
/// repeated edges silently; anything else becomes an edge.
pub open spec fn spec_add_prereq(
    nodes: Seq<DocView>,
    st: (Seq<(int, int)>, Seq<WarnView>),
    di: int,
    p: Seq<char>,
) -> (Seq<(int, int)>, Seq<WarnView>) {
    let d = nodes[di];
    if p == d.id {
        (st.0, st.1.push(WarnView::CycleEdge { from_id: p, to_id: d.id }))
    } else if !has_id(nodes, p) {
        (st.0, st.1.push(WarnView::UnresolvedReference { document_id: d.id, reference: p }))
    } else {
        let pi = id_index(nodes, p) as int;
        if st.0.contains((pi, di)) {
            st
        } else if reaches(st.0, di, pi) {
            (st.0, st.1.push(WarnView::CycleEdge { from_id: p, to_id: d.id }))
        } else {
            (st.0.push((pi, di)), st.1)
        }
    }
}

/// The first `k` prerequisites of node `di` applied in order.
pub open spec fn spec_doc_edges(
    nodes: Seq<DocView>,
    st: (Seq<(int, int)>, Seq<WarnView>),
    di: int,
    k: int,
) -> (Seq<(int, int)>, Seq<WarnView>)
    decreases k,
{
    if k <= 0 {
        st
    } else {
        spec_add_prereq(
            nodes,
            spec_doc_edges(nodes, st, di, k - 1),
            di,
            nodes[di].prerequisites[k - 1],
        )
    }
}

/// All prerequisites of the first `i` nodes applied in order.
pub open spec fn spec_edges(nodes: Seq<DocView>, i: int) -> (Seq<(int, int)>, Seq<WarnView>)
    decreases i,
{
    if i <= 0 {
        (Seq::empty(), Seq::empty())
    } else {
        spec_doc_edges(nodes, spec_edges(nodes, i - 1), i - 1, nodes[i - 1].prerequisites.len() as int)
    }
}

/// What the builder yields from a document list: nodes, edges, warnings.
pub open spec fn spec_build(docs: Seq<DocView>) -> (Seq<DocView>, Seq<(int, int)>, Seq<WarnView>) {
    let nd = spec_dedup(docs);
    let ew = spec_edges(nd.0, nd.0.len() as int);
    (nd.0, ew.0, nd.1 + ew.1)
}

impl Graph {
    pub open spec fn node_views(&self) -> Seq<DocView> {
        self.nodes@.map_values(|d: Document| d@)
    }

    pub open spec fn edge_list(&self) -> Seq<(int, int)> {
        ev(self.edges@)
    }

    /// Well-formed: ids unique, every edge between two distinct existing
    /// nodes, and no cycle among the edges.
    pub open spec fn wf(&self) -> bool {
        &&& unique_ids(self.node_views())
        &&& forall|k: int|
            0 <= k < self.edge_list().len() ==> 0 <= (#[trigger] self.edge_list()[k]).0
                < self.node_views().len() && 0 <= self.edge_list()[k].1 < self.node_views().len()
                && self.edge_list()[k].0 != self.edge_list()[k].1
        &&& acyclic(self.edge_list())
    }
}

/// Build the graph: nodes in first-seen order, edges from prerequisites,
/// warnings for everything dropped. Fails only when no documents at all
/// were handed in.
#[verifier::rlimit(90)]
pub fn build_graph(documents: Vec<Document>) -> (r: Result<(Graph, Vec<Warning>), BuildError>)
    ensures
        match r {
            Ok(gw) => {
                let b = spec_build(documents@.map_values(|d: Document| d@));
                &&& documents@.len() > 0
                &&& gw.0.node_views() == b.0
                &&& gw.0.edge_list() == b.1
                &&& gw.1@.map_values(|w: Warning| w@) == b.2
                &&& gw.0.wf()
            },
            Err(e) => e == BuildError::EmptyCorpus && documents@.len() == 0,
        },
{
    let ghost dv = documents@.map_values(|d: Document| d@);
    if documents.len() == 0 {
        return Err(BuildError::EmptyCorpus);
    }
    // phase one: nodes, first occurrence of each id wins
    let mut rest = documents;
    let mut nodes: Vec<Document> = Vec::new();
    let mut warns: Vec<Warning> = Vec::new();
    proof {
        assert(dv.subrange(0, 0) =~= Seq::<DocView>::empty());
        assert(nodes@.map_values(|d: Document| d@) =~= Seq::<DocView>::empty());
        assert(warns@.map_values(|w: Warning| w@) =~= Seq::<WarnView>::empty());
        assert(rest@.map_values(|d: Document| d@) =~= dv.skip(0));
    }
    let ghost mut i: int = 0;
    while rest.len() > 0
        invariant
            0 <= i <= dv.len(),
            rest@.map_values(|d: Document| d@) == dv.skip(i),
            rest@.len() == dv.len() - i,
            nodes@.map_values(|d: Document| d@) == spec_dedup(dv.subrange(0, i)).0,
            warns@.map_values(|w: Warning| w@) == spec_dedup(dv.subrange(0, i)).1,
        decreases rest@.len(),
    {
        let ghost npre = nodes@.map_values(|d: Document| d@);
        let ghost wpre = warns@.map_values(|w: Warning| w@);
        let ghost rest0 = rest@;
        let d = rest.remove(0);
        proof {
            assert(rest@ =~= rest0.skip(1));
            assert(d == rest0[0]);
            assert(rest0.map_values(|e: Document| e@)[0] == d@);
            assert(d@ == dv[i]);
            assert forall|j: int| 0 <= j < rest@.len() implies rest@.map_values(
                |e: Document| e@,
            )[j] == #[trigger] dv.skip(i + 1)[j] by {
                assert(rest@[j] == rest0[j + 1]);
                assert(rest0.map_values(|e: Document| e@)[j + 1] == dv.skip(i)[j + 1]);
                assert(rest@.map_values(|e: Document| e@)[j] == rest@[j]@);
            }
            assert(rest@.map_values(|e: Document| e@) =~= dv.skip(i + 1));
            assert(dv.subrange(0, i + 1).drop_last() =~= dv.subrange(0, i));
            assert(dv.subrange(0, i + 1).last() == dv[i]);
        }
        let idx = find_node(&nodes, d.id.as_str());
        proof {
            lemma_id_index(npre, d@.id);
        }
        if idx < nodes.len() {
            let w = Warning::DuplicateId { id: d.id, file_path: d.file_path };
            let ghost wv = w@;
            warns.push(w);
            proof {
                assert(warns@.map_values(|w: Warning| w@) =~= wpre.push(wv));
            }
        } else {
            let ghost nd = d@;
            nodes.push(d);
            proof {
                assert(nodes@.map_values(|e: Document| e@) =~= npre.push(nd));
            }
        }
        proof {
            i = i + 1;
        }
    }
    proof {
        assert(dv.subrange(0, dv.len() as int) =~= dv);
        lemma_dedup_props(dv);
    }
    // phase two: edges from each node's prerequisites, in order
    let ghost nv = nodes@.map_values(|d: Document| d@);
    let mut edges: Vec<(usize, usize)> = Vec::new();
    let nlen = nodes.len();
    let mut di: usize = 0;
    let ghost w1 = warns@.map_values(|w: Warning| w@);
    while di < nlen
        invariant
            0 <= di <= nlen,
            nlen == nodes@.len(),
            nv == nodes@.map_values(|d: Document| d@),
            nv.len() == nlen,
            unique_ids(nv),
            ev(edges@) == spec_edges(nv, di as int).0,
            warns@.map_values(|w: Warning| w@) == w1 + spec_edges(nv, di as int).1,
            forall|k: int| 0 <= k < edges@.len() ==> (#[trigger] edges@[k]).0 < nlen
                && edges@[k].1 < nlen && edges@[k].0 != edges@[k].1,
            acyclic(ev(edges@)),
        decreases nlen - di,
    {
        let np = nodes[di].prerequisites.len();
        let mut k: usize = 0;
        proof {
            assert(nv[di as int] == nodes@[di as int]@);
            assert(spec_doc_edges(nv, spec_edges(nv, di as int), di as int, 0) == spec_edges(
                nv,
                di as int,
            ));
        }
        while k < np
            invariant
                0 <= k <= np,
                0 <= di < nlen,
                nlen == nodes@.len(),
                nv == nodes@.map_values(|d: Document| d@),
                nv.len() == nlen,
                unique_ids(nv),
                np == nv[di as int].prerequisites.len(),
                (ev(edges@), warns@.map_values(|w: Warning| w@)) == {
                    let st = spec_doc_edges(nv, spec_edges(nv, di as int), di as int, k as int);
                    (st.0, w1 + st.1)
                },
                forall|j: int| 0 <= j < edges@.len() ==> (#[trigger] edges@[j]).0 < nlen
                    && edges@[j].1 < nlen && edges@[j].0 != edges@[j].1,
                acyclic(ev(edges@)),
            decreases np - k,
        {
            let ghost st = spec_doc_edges(nv, spec_edges(nv, di as int), di as int, k as int);
            let ghost epre = ev(edges@);
            let ghost wpre = warns@.map_values(|w: Warning| w@);
            let p: String = {
                let d_ref = &nodes[di];
                d_ref.prerequisites[k].clone()
            };
            proof {
                assert(nv[di as int] == nodes@[di as int]@);
                assert(p@ == nv[di as int].prerequisites[k as int]);
            }
            if str_eq(p.as_str(), nodes[di].id.as_str()) {
                let w = Warning::CycleEdge { from_id: p, to_id: nodes[di].id.clone() };
                let ghost wv = w@;
                warns.push(w);
                proof {
                    assert(warns@.map_values(|w: Warning| w@) =~= wpre.push(wv));
                }
            } else {
                let pi = find_node(&nodes, p.as_str());
                proof {
                    lemma_id_index(nv, p@);
                }
                if pi >= nlen {
                    let w = Warning::UnresolvedReference {
                        document_id: nodes[di].id.clone(),
                        reference: p,
                    };
                    let ghost wv = w@;
                    warns.push(w);
                    proof {
                        assert(warns@.map_values(|w: Warning| w@) =~= wpre.push(wv));
                    }
                } else {
                    let dup = contains_edge(&edges, pi, di);
                    if dup {
                    } else if can_reach(&edges, nlen, di, pi) {
                        let w = Warning::CycleEdge { from_id: p, to_id: nodes[di].id.clone() };
                        let ghost wv = w@;
                        warns.push(w);
                        proof {
                            assert(warns@.map_values(|w: Warning| w@) =~= wpre.push(wv));
                        }
                    } else {
                        proof {
                            assert(nv[pi as int].id == p@ && nv[di as int].id != p@);
                            lemma_acyclic_push(epre, (pi as int, di as int));
                        }
                        edges.push((pi, di));
                        proof {
                            assert(ev(edges@) =~= epre.push((pi as int, di as int)));
                        }
                    }
                }
            }
            proof {
                assert(spec_doc_edges(nv, spec_edges(nv, di as int), di as int, k as int + 1)
                    == spec_add_prereq(nv, st, di as int, nv[di as int].prerequisites[k as int]));
            }
            k = k + 1;
        }
        proof {
            assert(spec_edges(nv, di as int + 1) == spec_doc_edges(
                nv,
                spec_edges(nv, di as int),
                di as int,
                nv[di as int].prerequisites.len() as int,
            ));
        }
        di = di + 1;
    }
    let g = Graph { nodes, edges };
    proof {
        assert(g.node_views() == nv);
        assert(g.edge_list() == spec_edges(nv, nv.len() as int).0);
    }
    Ok((g, warns))
}

/// Whether the pair `(a, b)` is already among the edges.
fn contains_edge(edges: &Vec<(usize, usize)>, a: usize, b: usize) -> (r: bool)
    ensures
        r == ev(edges@).contains((a as int, b as int)),
{
    let mut m: usize = 0;
    while m < edges.len()
        invariant
            0 <= m <= edges@.len(),
            forall|j: int| 0 <= j < m ==> ev(edges@)[j] != (a as int, b as int),
        decreases edges@.len() - m,
    {
        let e = edges[m];
        if e.0 == a && e.1 == b {
            proof {
                assert(ev(edges@)[m as int] == (a as int, b as int));
            }
            return true;
        }
        proof {
            assert(ev(edges@)[m as int] == (edges@[m as int].0 as int, edges@[m as int].1 as int));
        }
        m = m + 1;
    }
    proof {
        assert forall|j: int| 0 <= j < ev(edges@).len() implies ev(edges@)[j] != (
        a as int,
        b as int,
        ) by {}
    }
    false
}

/// Referential closure: both endpoints of every retained edge carry ids
/// present among the graph's nodes.
pub proof fn lemma_referential_closure(g: &Graph)
    requires
        g.wf(),
    ensures
        forall|k: int|
            0 <= k < g.edge_list().len() ==> has_id(
                g.node_views(),
                g.node_views()[(#[trigger] g.edge_list()[k]).0].id,
            ) && has_id(g.node_views(), g.node_views()[g.edge_list()[k].1].id),
{
    assert forall|k: int| 0 <= k < g.edge_list().len() implies has_id(
        g.node_views(),
        g.node_views()[(#[trigger] g.edge_list()[k]).0].id,
    ) && has_id(g.node_views(), g.node_views()[g.edge_list()[k].1].id) by {
        lemma_id_index_first_match(
            g.node_views(),
            g.node_views()[g.edge_list()[k].0].id,
            g.edge_list()[k].0,
        );
        lemma_id_index_first_match(
            g.node_views(),
            g.node_views()[g.edge_list()[k].1].id,
            g.edge_list()[k].1,
        );
    }
}

/// Acyclicity, in path form: an acyclic edge set carries no path of at
/// least one edge that returns to its start.
pub proof fn lemma_acyclic_no_cycle(edges: Seq<(int, int)>, p: Seq<int>)
    requires
        acyclic(edges),
        is_path(edges, p),
        p.len() >= 2,
    ensures
        p.first() != p.last(),
{
    if p.first() == p.last() {
        assert(edges.contains((p[0], p[1])));
        let k = choose|k: int| 0 <= k < edges.len() && edges[k] == (p[0], p[1]);
        let tail = p.skip(1);
        assert forall|j: int| 0 <= j < tail.len() - 1 implies edges.contains(
            ((#[trigger] tail[j]), tail[j + 1]),
        ) by {
            assert(tail[j] == p[j + 1] && tail[j + 1] == p[j + 2]);
            assert(edges.contains((p[j + 1], p[j + 2])));
        }
        assert(is_path(edges, tail));
        assert(tail.first() == p[1] && tail.last() == p.last());
        assert(reaches(edges, p[1], p[0]));
        assert(!reaches(edges, edges[k].1, edges[k].0));
    }
}

} // verus!
