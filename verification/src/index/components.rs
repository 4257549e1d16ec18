//! Connected components of an undirected graph over chunk ids.

use std::collections::HashSet;
use vstd::prelude::*;

verus! {

/// The ids stand in ascending order, none of them twice.
pub open spec fn ascending(s: Seq<u64>) -> bool {
    forall|i: int, j: int| 0 <= i < j < s.len() ==> #[trigger] s[i] < #[trigger] s[j]
}

/// The ascending ids `s` together with `x`.
pub open spec fn with_id(s: Seq<u64>, x: u64) -> Seq<u64>
    decreases s.len(),
{
    if s.len() == 0 || s.last() < x {
        s.push(x)
    } else if s.last() == x {
        s
    } else {
        with_id(s.drop_last(), x).push(s.last())
    }
}

/// Adding an id keeps the order and adds nothing else.
pub proof fn lemma_with_id(s: Seq<u64>, x: u64)
    requires
        ascending(s),
    ensures
        ascending(with_id(s, x)),
        forall|y: u64| #[trigger] with_id(s, x).contains(y) <==> s.contains(y) || y == x,
    decreases s.len(),
{
    let r = with_id(s, x);
    if s.len() == 0 || s.last() < x {
        assert forall|y: u64| #[trigger] r.contains(y) <==> s.contains(y) || y == x by {
            if s.contains(y) {
                let k = choose|k: int| 0 <= k < s.len() && s[k] == y;
                assert(r[k] == y);
            }
            if y == x {
                assert(r[s.len() as int] == y);
            }
        }
        assert forall|i: int, j: int| 0 <= i < j < r.len() implies #[trigger] r[i]
            < #[trigger] r[j] by {
            if j == s.len() && i < s.len() - 1 {
                assert(s[i] < s[s.len() - 1]);
            }
        }
    } else if s.last() == x {
        assert(s[s.len() - 1] == x);
    } else {
        let front = s.drop_last();
        assert(ascending(front)) by {
            assert forall|i: int, j: int| 0 <= i < j < front.len() implies #[trigger] front[i]
                < #[trigger] front[j] by {
                assert(s[i] < s[j]);
            }
        }
        lemma_with_id(front, x);
        let p = with_id(front, x);
        assert forall|i: int, j: int| 0 <= i < j < r.len() implies #[trigger] r[i]
            < #[trigger] r[j] by {
            if j == p.len() {
                assert(p.contains(p[i]));
                if p[i] != x {
                    let k = choose|k: int| 0 <= k < front.len() && front[k] == p[i];
                    assert(s[k] < s[s.len() - 1]);
                }
            } else {
                assert(p[i] < p[j]);
            }
        }
        assert forall|y: u64| #[trigger] r.contains(y) <==> s.contains(y) || y == x by {
            if r.contains(y) {
                let k = choose|k: int| 0 <= k < r.len() && r[k] == y;
                if k < p.len() {
                    assert(p.contains(y));
                    if y != x {
                        let m = choose|m: int| 0 <= m < front.len() && front[m] == y;
                        assert(s[m] == y);
                    }
                } else {
                    assert(s[s.len() - 1] == y);
                }
            }
            if s.contains(y) {
                let k = choose|k: int| 0 <= k < s.len() && s[k] == y;
                if k < front.len() {
                    assert(front[k] == y);
                    assert(p.contains(y));
                    let m = choose|m: int| 0 <= m < p.len() && p[m] == y;
                    assert(r[m] == y);
                } else {
                    assert(r[p.len() as int] == y);
                }
            }
            if y == x {
                assert(p.contains(y));
                let m = choose|m: int| 0 <= m < p.len() && p[m] == y;
                assert(r[m] == y);
            }
        }
    }
}

/// Adds an id to ascending ids.
pub fn add_id(v: &mut Vec<u64>, x: u64)
    ensures
        final(v)@ == with_id(old(v)@, x),
{
    let ghost s = v@;
    let mut p: usize = v.len();
    proof {
        assert(s.take(p as int) =~= s);
        assert(with_id(s, x) =~= with_id(s, x) + s.skip(p as int));
    }
    while p > 0 && v[p - 1] > x
        invariant
            p <= v@.len(),
            s == v@,
            with_id(s, x) == with_id(s.take(p as int), x) + s.skip(p as int),
        decreases p,
    {
        proof {
            let front = s.take(p as int);
            assert(front.drop_last() =~= s.take(p - 1));
            assert(with_id(s.take(p - 1), x).push(front.last()) + s.skip(p as int) =~= with_id(
                s.take(p - 1),
                x,
            ) + s.skip(p - 1));
        }
        p = p - 1;
    }
    if p > 0 && v[p - 1] == x {
        proof {
            assert(s.take(p as int).last() == x);
            assert(s.take(p as int) + s.skip(p as int) =~= s);
        }
        return ;
    }
    proof {
        assert(s.take(p as int).len() > 0 ==> s.take(p as int).last() == s[p - 1]);
    }
    v.insert(p, x);
    proof {
        assert(v@ =~= s.take(p as int).push(x) + s.skip(p as int));
    }
}

/// There is an edge between `a` and `b`, in either direction.
pub open spec fn linked(edges: Seq<(u64, u64)>, a: u64, b: u64) -> bool {
    edges.contains((a, b)) || edges.contains((b, a))
}

/// The nodes that an edge links to `n`, ascending.
pub open spec fn neighbours(edges: Seq<(u64, u64)>, n: u64) -> Seq<u64>
    decreases edges.len(),
{
    if edges.len() == 0 {
        Seq::empty()
    } else {
        let r = neighbours(edges.drop_last(), n);
        let (a, b) = edges.last();
        let r1 = if a == n {
            with_id(r, b)
        } else {
            r
        };
        if b == n {
            with_id(r1, a)
        } else {
            r1
        }
    }
}

/// The neighbours of a node are the nodes linked to it.
pub proof fn lemma_neighbours(edges: Seq<(u64, u64)>, n: u64)
    ensures
        ascending(neighbours(edges, n)),
        forall|x: u64| #[trigger] neighbours(edges, n).contains(x) <==> linked(edges, n, x),
    decreases edges.len(),
{
    if edges.len() > 0 {
        let front = edges.drop_last();
        let (a, b) = edges.last();
        lemma_neighbours(front, n);
        let r = neighbours(front, n);
        let r1 = if a == n {
            with_id(r, b)
        } else {
            r
        };
        lemma_with_id(r, b);
        lemma_with_id(r1, a);
        assert forall|e: (u64, u64)| #[trigger] edges.contains(e) <==> front.contains(e) || e == (
            a,
            b,
        ) by {
            if edges.contains(e) {
                let k = choose|k: int| 0 <= k < edges.len() && edges[k] == e;
                if k < front.len() {
                    assert(front[k] == e);
                }
            }
            if front.contains(e) {
                let k = choose|k: int| 0 <= k < front.len() && front[k] == e;
                assert(edges[k] == e);
            }
            assert(edges[edges.len() - 1] == (a, b));
        }
        assert forall|x: u64| #[trigger] neighbours(edges, n).contains(x) <==> linked(
            edges,
            n,
            x,
        ) by {
            assert(r.contains(x) <==> linked(front, n, x));
            assert(r1.contains(x) <==> r.contains(x) || (a == n && x == b));
            assert(edges.contains((n, x)) <==> front.contains((n, x)) || (n, x) == (a, b));
            assert(edges.contains((x, n)) <==> front.contains((x, n)) || (x, n) == (a, b));
        }
    } else {
        assert forall|x: u64| !(#[trigger] neighbours(edges, n).contains(x)) && !linked(
            edges,
            n,
            x,
        ) by {}
    }
}

/// The nodes of the graph, ascending: the seeds and the ends of the edges.
pub open spec fn graph_nodes(seeds: Seq<u64>, edges: Seq<(u64, u64)>) -> Seq<u64>
    decreases seeds.len(), edges.len(),
{
    if edges.len() > 0 {
        let r = graph_nodes(seeds, edges.drop_last());
        with_id(with_id(r, edges.last().0), edges.last().1)
    } else if seeds.len() > 0 {
        with_id(graph_nodes(seeds.drop_last(), edges), seeds.last())
    } else {
        Seq::empty()
    }
}

/// The nodes are exactly the seeds and the ends of the edges.
pub proof fn lemma_graph_nodes(seeds: Seq<u64>, edges: Seq<(u64, u64)>)
    ensures
        ascending(graph_nodes(seeds, edges)),
        forall|x: u64| #[trigger]
            graph_nodes(seeds, edges).contains(x) <==> seeds.contains(x) || exists|y: u64|
                linked(edges, x, y),
    decreases seeds.len(), edges.len(),
{
    let r = graph_nodes(seeds, edges);
    if edges.len() > 0 {
        let front = edges.drop_last();
        let (a, b) = edges.last();
        lemma_graph_nodes(seeds, front);
        lemma_with_id(graph_nodes(seeds, front), a);
        lemma_with_id(with_id(graph_nodes(seeds, front), a), b);
        assert forall|x: u64| #[trigger] r.contains(x) <==> seeds.contains(x) || exists|y: u64|
            linked(edges, x, y) by {
            if graph_nodes(seeds, front).contains(x) && !seeds.contains(x) {
                let y = choose|y: u64| linked(front, x, y);
                let e = if front.contains((x, y)) {
                    (x, y)
                } else {
                    (y, x)
                };
                let k = choose|k: int| 0 <= k < front.len() && front[k] == e;
                assert(edges[k] == e);
                assert(linked(edges, x, y));
            }
            assert(edges[edges.len() - 1] == (a, b));
            assert(linked(edges, a, b));
            assert(linked(edges, b, a));
            if exists|y: u64| linked(edges, x, y) {
                let y = choose|y: u64| linked(edges, x, y);
                let e = if edges.contains((x, y)) {
                    (x, y)
                } else {
                    (y, x)
                };
                let k = choose|k: int| 0 <= k < edges.len() && edges[k] == e;
                if k < front.len() {
                    assert(front[k] == e);
                    assert(linked(front, x, y));
                }
            }
        }
    } else if seeds.len() > 0 {
        let front = seeds.drop_last();
        lemma_graph_nodes(front, edges);
        lemma_with_id(graph_nodes(front, edges), seeds.last());
        assert forall|x: u64| #[trigger] r.contains(x) <==> seeds.contains(x) || exists|y: u64|
            linked(edges, x, y) by {
            if seeds.contains(x) {
                let k = choose|k: int| 0 <= k < seeds.len() && seeds[k] == x;
                if k < front.len() {
                    assert(front[k] == x);
                }
            }
            if front.contains(x) {
                let k = choose|k: int| 0 <= k < front.len() && front[k] == x;
                assert(seeds[k] == x);
            }
            assert(seeds[seeds.len() - 1] == seeds.last());
        }
    }
}

/// The ids of `s` that are not in `seen`.
pub open spec fn unseen(s: Seq<u64>, seen: Seq<u64>) -> Seq<u64> {
    s.filter(|x: u64| !seen.contains(x))
}

/// How many of the nodes are not in `seen` yet.
pub open spec fn open_nodes(nodes: Seq<u64>, seen: Seq<u64>) -> nat {
    nodes.to_set().difference(seen.to_set()).len()
}

/// Seeing a new node leaves fewer nodes to see.
pub proof fn lemma_open_nodes_shrink(nodes: Seq<u64>, seen: Seq<u64>, n: u64)
    requires
        nodes.contains(n),
        !seen.contains(n),
    ensures
        open_nodes(nodes, seen.push(n)) < open_nodes(nodes, seen),
{
    let before = nodes.to_set().difference(seen.to_set());
    let after = nodes.to_set().difference(seen.push(n).to_set());
    assert(after =~= before.remove(n)) by {
        assert forall|x: u64| #[trigger] seen.push(n).contains(x) <==> seen.contains(x) || x
            == n by {
            if seen.contains(x) {
                let k = choose|k: int| 0 <= k < seen.len() && seen[k] == x;
                assert(seen.push(n)[k] == x);
            }
            assert(seen.push(n)[seen.len() as int] == n);
        }
    }
    assert(before.contains(n));
}

/// What has been seen when the stack is worked off: the node on top is taken; if it is new, it is
/// seen, and its unseen neighbours go onto the stack in ascending order.
pub open spec fn explored(
    edges: Seq<(u64, u64)>,
    nodes: Seq<u64>,
    stack: Seq<u64>,
    seen: Seq<u64>,
) -> Seq<u64>
    decreases open_nodes(nodes, seen), stack.len(),
{
    if stack.len() == 0 {
        seen
    } else {
        let n = stack.last();
        let rest = stack.drop_last();
        if seen.contains(n) || !nodes.contains(n) {
            explored(edges, nodes, rest, seen)
        } else {
            proof {
                lemma_open_nodes_shrink(nodes, seen, n);
            }
            let seen2 = seen.push(n);
            explored(edges, nodes, rest + unseen(neighbours(edges, n), seen2), seen2)
        }
    }
}

/// What has been seen after the first `k` nodes have been tried as starting points, and the
/// components found.
pub open spec fn swept(edges: Seq<(u64, u64)>, nodes: Seq<u64>, k: nat) -> (
    Seq<u64>,
    Seq<Seq<u64>>,
)
    decreases k,
{
    if k == 0 {
        (Seq::empty(), Seq::empty())
    } else {
        let (seen, found) = swept(edges, nodes, (k - 1) as nat);
        let n = nodes[k - 1];
        if seen.contains(n) {
            (seen, found)
        } else {
            let seen2 = explored(edges, nodes, seq![n], seen);
            (seen2, found.push(seen2.skip(seen.len() as int)))
        }
    }
}

/// The connected components of the graph, by their smallest node, each in the order in which a
/// depth-first search meets its nodes.
pub open spec fn components_of(seeds: Seq<u64>, edges: Seq<(u64, u64)>) -> Seq<Seq<u64>> {
    let nodes = graph_nodes(seeds, edges);
    swept(edges, nodes, nodes.len()).1
}

/// Puts the ids of `from` that are not in `visited` onto the stack.
fn push_unseen(stack: &mut Vec<u64>, from: &Vec<u64>, visited: &HashSet<u64>, Ghost(seen): Ghost<
    Seq<u64>,
>)
    requires
        visited@ == seen.to_set(),
    ensures
        final(stack)@ == old(stack)@ + unseen(from@, seen),
{
    broadcast use vstd::std_specs::hash::group_hash_axioms;

    let mut i: usize = 0;
    proof {
        reveal(Seq::filter);
        assert(from@.take(0) =~= Seq::<u64>::empty());
        assert(stack@ =~= stack@ + unseen(from@.take(0), seen));
    }
    while i < from.len()
        invariant
            i <= from@.len(),
            visited@ == seen.to_set(),
            stack@ == old(stack)@ + unseen(from@.take(i as int), seen),
        decreases from@.len() - i,
    {
        let ghost before = stack@;
        proof {
            reveal(Seq::filter);
            assert(from@.take(i + 1).drop_last() =~= from@.take(i as int));
        }
        if !visited.contains(&from[i]) {
            stack.push(from[i]);
        }
        i = i + 1;
        proof {
            assert(stack@ =~= old(stack)@ + unseen(from@.take(i as int), seen));
        }
    }
    proof {
        assert(from@.take(i as int) =~= from@);
    }
}

/// The graph as lists of neighbours: `lists[i]` for the node `nodes[i]`.
struct Adjacency {
    nodes: Vec<u64>,
    lists: Vec<Vec<u64>>,
}

impl Adjacency {
    spec fn of(self, nodes: Seq<u64>, edges: Seq<(u64, u64)>) -> bool {
        &&& self.nodes@ == nodes
        &&& self.lists@.len() == nodes.len()
        &&& forall|i: int|
            0 <= i < nodes.len() ==> (#[trigger] self.lists@[i])@ == neighbours(edges, nodes[i])
    }

    /// The position of the node `n`.
    fn position(&self, n: u64) -> (r: Option<usize>)
        ensures
            match r {
                Some(i) => i < self.nodes@.len() && self.nodes@[i as int] == n,
                None => !self.nodes@.contains(n),
            },
    {
        let mut i: usize = 0;
        while i < self.nodes.len()
            invariant
                i <= self.nodes@.len(),
                forall|k: int| 0 <= k < i ==> self.nodes@[k] != n,
            decreases self.nodes@.len() - i,
        {
            if self.nodes[i] == n {
                return Some(i);
            }
            i = i + 1;
        }
        None
    }
}

/// The neighbours of `n`, ascending.
fn list_neighbours(edges: &Vec<(u64, u64)>, n: u64) -> (r: Vec<u64>)
    ensures
        r@ == neighbours(edges@, n),
{
    let mut r: Vec<u64> = Vec::new();
    let mut i: usize = 0;
    while i < edges.len()
        invariant
            i <= edges@.len(),
            r@ == neighbours(edges@.take(i as int), n),
        decreases edges@.len() - i,
    {
        let (a, b) = edges[i];
        proof {
            assert(edges@.take(i + 1).drop_last() =~= edges@.take(i as int));
        }
        if a == n {
            add_id(&mut r, b);
        }
        if b == n {
            add_id(&mut r, a);
        }
        i = i + 1;
    }
    proof {
        assert(edges@.take(i as int) =~= edges@);
    }
    r
}

/// The nodes of the graph, ascending.
fn list_nodes(seeds: &Vec<u64>, edges: &Vec<(u64, u64)>) -> (r: Vec<u64>)
    ensures
        r@ == graph_nodes(seeds@, edges@),
{
    let mut r: Vec<u64> = Vec::new();
    let mut i: usize = 0;
    let ghost none = Seq::<(u64, u64)>::empty();
    while i < seeds.len()
        invariant
            i <= seeds@.len(),
            none == Seq::<(u64, u64)>::empty(),
            r@ == graph_nodes(seeds@.take(i as int), none),
        decreases seeds@.len() - i,
    {
        proof {
            assert(seeds@.take(i + 1).drop_last() =~= seeds@.take(i as int));
        }
        add_id(&mut r, seeds[i]);
        i = i + 1;
    }
    let mut j: usize = 0;
    proof {
        assert(seeds@.take(i as int) =~= seeds@);
        assert(edges@.take(0) =~= none);
    }
    while j < edges.len()
        invariant
            j <= edges@.len(),
            r@ == graph_nodes(seeds@, edges@.take(j as int)),
        decreases edges@.len() - j,
    {
        let (a, b) = edges[j];
        proof {
            assert(edges@.take(j + 1).drop_last() =~= edges@.take(j as int));
        }
        add_id(&mut r, a);
        add_id(&mut r, b);
        j = j + 1;
    }
    proof {
        assert(edges@.take(j as int) =~= edges@);
    }
    r
}

/// The connected components of the graph that the seeds and the edges make, by their smallest
/// node, each in the order in which a depth-first search meets its nodes.
pub fn connected_components(seeds: &Vec<u64>, edges: &Vec<(u64, u64)>) -> (r: Vec<Vec<u64>>)
    ensures
        crate::text::views(r@) == components_of(seeds@, edges@),
{
    broadcast use vstd::std_specs::hash::group_hash_axioms;

    let nodes: Vec<u64> = list_nodes(seeds, edges);
    let ghost ns = nodes@;
    let mut lists: Vec<Vec<u64>> = Vec::new();
    let mut i: usize = 0;
    while i < nodes.len()
        invariant
            i <= nodes@.len(),
            lists@.len() == i,
            forall|k: int| 0 <= k < i ==> (#[trigger] lists@[k])@ == neighbours(edges@, nodes@[k]),
        decreases nodes@.len() - i,
    {
        lists.push(list_neighbours(edges, nodes[i]));
        i = i + 1;
    }
    let g: Adjacency = Adjacency { nodes, lists };
    let mut visited: HashSet<u64> = HashSet::new();
    let mut seen: Vec<u64> = Vec::new();
    let mut found: Vec<Vec<u64>> = Vec::new();
    let mut k: usize = 0;
    proof {
        assert(visited@ =~= seen@.to_set());
        assert(crate::text::views(found@) =~= swept(edges@, ns, 0).1);
    }
    while k < g.nodes.len()
        invariant
            ns == graph_nodes(seeds@, edges@),
            g.of(ns, edges@),
            k <= ns.len(),
            visited@ == seen@.to_set(),
            seen@ == swept(edges@, ns, k as nat).0,
            crate::text::views(found@) == swept(edges@, ns, k as nat).1,
        decreases ns.len() - k,
    {
        let n: u64 = g.nodes[k];
        let ghost seen0 = seen@;
        let ghost found0 = crate::text::views(found@);
        if !visited.contains(&n) {
            let from: usize = seen.len();
            explore(&g, n, &mut visited, &mut seen, Ghost(edges@));
            let mut component: Vec<u64> = Vec::new();
            let mut j: usize = from;
            while j < seen.len()
                invariant
                    from <= j <= seen@.len(),
                    component@ == seen@.subrange(from as int, j as int),
                decreases seen@.len() - j,
            {
                component.push(seen[j]);
                j = j + 1;
            }
            proof {
                assert(component@ =~= seen@.skip(seen0.len() as int));
            }
            found.push(component);
            proof {
                assert(crate::text::views(found@) =~= found0.push(component@));
            }
        }
        k = k + 1;
    }
    found
}

/// Sees the nodes that can be reached from `start`.
fn explore(
    g: &Adjacency,
    start: u64,
    visited: &mut HashSet<u64>,
    seen: &mut Vec<u64>,
    Ghost(edges): Ghost<Seq<(u64, u64)>>,
)
    requires
        g.of(g.nodes@, edges),
        old(visited)@ == old(seen)@.to_set(),
    ensures
        final(seen)@ == explored(edges, g.nodes@, seq![start], old(seen)@),
        final(visited)@ == final(seen)@.to_set(),
        old(seen)@.len() <= final(seen)@.len(),
{
    broadcast use vstd::std_specs::hash::group_hash_axioms;

    let ghost nodes = g.nodes@;
    let mut stack: Vec<u64> = Vec::new();
    stack.push(start);
    proof {
        assert(stack@ =~= seq![start]);
    }
    while stack.len() > 0
        invariant
            g.of(nodes, edges),
            visited@ == seen@.to_set(),
            old(seen)@.len() <= seen@.len(),
            explored(edges, nodes, seq![start], old(seen)@) == explored(
                edges,
                nodes,
                stack@,
                seen@,
            ),
        decreases open_nodes(nodes, seen@), stack@.len(),
    {
        let n: u64 = stack[stack.len() - 1];
        let ghost full = stack@;
        stack.pop();
        proof {
            assert(stack@ =~= full.drop_last());
        }
        let is_new: bool = !visited.contains(&n);
        if is_new {
            match g.position(n) {
                Some(i) => {
                    proof {
                        lemma_open_nodes_shrink(nodes, seen@, n);
                        assert(nodes.contains(n));
                    }
                    let ghost seen0 = seen@;
                    seen.push(n);
                    visited.insert(n);
                    proof {
                        assert(visited@ =~= seen@.to_set()) by {
                            assert forall|x: u64| #[trigger] seen@.contains(x)
                                <==> seen0.contains(x) || x == n by {
                                if seen0.contains(x) {
                                    let m = choose|m: int| 0 <= m < seen0.len() && seen0[m] == x;
                                    assert(seen@[m] == x);
                                }
                                assert(seen@[seen0.len() as int] == n);
                            }
                        }
                    }
                    push_unseen(&mut stack, &g.lists[i], visited, Ghost(seen@));
                },
                None => {},
            }
        }
    }
}

/// Each two consecutive nodes of `p` are linked.
pub open spec fn is_path(edges: Seq<(u64, u64)>, p: Seq<u64>) -> bool {
    &&& p.len() > 0
    &&& forall|i: int| 0 <= i < p.len() - 1 ==> linked(edges, #[trigger] p[i], p[i + 1])
}

/// A path leads from `a` to `b`.
pub open spec fn connected(edges: Seq<(u64, u64)>, a: u64, b: u64) -> bool {
    exists|p: Seq<u64>| #[trigger] is_path(edges, p) && p[0] == a && p.last() == b
}

proof fn lemma_connected_self(edges: Seq<(u64, u64)>, a: u64)
    ensures
        connected(edges, a, a),
{
    assert(is_path(edges, seq![a]));
}

proof fn lemma_connected_step(edges: Seq<(u64, u64)>, a: u64, b: u64, c: u64)
    requires
        connected(edges, a, b),
        linked(edges, b, c),
    ensures
        connected(edges, a, c),
{
    let p = choose|p: Seq<u64>| #[trigger] is_path(edges, p) && p[0] == a && p.last() == b;
    let q = p.push(c);
    assert forall|i: int| 0 <= i < q.len() - 1 implies linked(
        edges,
        #[trigger] q[i],
        q[i + 1],
    ) by {
        if i < p.len() - 1 {
            assert(linked(edges, p[i], p[i + 1]));
        }
    }
    assert(is_path(edges, q));
}

proof fn lemma_connected_back(edges: Seq<(u64, u64)>, a: u64, b: u64)
    requires
        connected(edges, a, b),
    ensures
        connected(edges, b, a),
{
    let p = choose|p: Seq<u64>| #[trigger] is_path(edges, p) && p[0] == a && p.last() == b;
    let q = Seq::new(p.len(), |i: int| p[p.len() - 1 - i]);
    assert forall|i: int| 0 <= i < q.len() - 1 implies linked(
        edges,
        #[trigger] q[i],
        q[i + 1],
    ) by {
        let j = p.len() - 2 - i;
        assert(linked(edges, p[j], p[j + 1]));
    }
    assert(is_path(edges, q));
}

proof fn lemma_connected_join(edges: Seq<(u64, u64)>, a: u64, b: u64, c: u64)
    requires
        connected(edges, a, b),
        connected(edges, b, c),
    ensures
        connected(edges, a, c),
{
    let p = choose|p: Seq<u64>| #[trigger] is_path(edges, p) && p[0] == a && p.last() == b;
    let q = choose|q: Seq<u64>| #[trigger] is_path(edges, q) && q[0] == b && q.last() == c;
    let r = p + q.skip(1);
    assert forall|i: int| 0 <= i < r.len() - 1 implies linked(
        edges,
        #[trigger] r[i],
        r[i + 1],
    ) by {
        if i < p.len() - 1 {
            assert(linked(edges, p[i], p[i + 1]));
        } else {
            let j = i - (p.len() - 1);
            assert(linked(edges, q[j], q[j + 1]));
        }
    }
    assert(is_path(edges, r));
    assert(r.last() == c);
}

/// The ids in `s` are linked to ids in `s` or in `also` only.
pub open spec fn closed_but(edges: Seq<(u64, u64)>, s: Seq<u64>, also: Seq<u64>) -> bool {
    forall|x: u64, y: u64|
        s.contains(x) && #[trigger] linked(edges, x, y) ==> s.contains(y) || also.contains(y)
}

proof fn lemma_explored(
    edges: Seq<(u64, u64)>,
    nodes: Seq<u64>,
    stack: Seq<u64>,
    seen: Seq<u64>,
    start: u64,
    base: int,
)
    requires
        forall|x: u64, y: u64| nodes.contains(x) && #[trigger] linked(edges, x, y)
            ==> nodes.contains(y),
        forall|x: u64| #[trigger] stack.contains(x) ==> nodes.contains(x) && connected(
            edges,
            start,
            x,
        ),
        forall|x: u64| #[trigger] seen.contains(x) ==> nodes.contains(x),
        seen.no_duplicates(),
        closed_but(edges, seen, stack),
        0 <= base <= seen.len(),
        forall|i: int| base <= i < seen.len() ==> connected(edges, start, #[trigger] seen[i]),
    ensures
        ({
            let r = explored(edges, nodes, stack, seen);
            &&& r.no_duplicates()
            &&& forall|x: u64| #[trigger] r.contains(x) ==> nodes.contains(x)
            &&& closed_but(edges, r, Seq::empty())
            &&& seen.len() <= r.len()
            &&& r.take(seen.len() as int) == seen
            &&& forall|i: int| base <= i < r.len() ==> connected(edges, start, #[trigger] r[i])
            &&& forall|x: u64| #[trigger] stack.contains(x) ==> r.contains(x)
        }),
    decreases open_nodes(nodes, seen), stack.len(),
{
    let r = explored(edges, nodes, stack, seen);
    if stack.len() == 0 {
        assert(r.take(seen.len() as int) =~= seen);
    } else {
        let n = stack.last();
        let rest = stack.drop_last();
        assert(stack[stack.len() - 1] == n);
        assert(stack.contains(n));
        assert forall|x: u64| #[trigger] stack.contains(x) <==> rest.contains(x) || x == n by {
            if stack.contains(x) {
                let k = choose|k: int| 0 <= k < stack.len() && stack[k] == x;
                if k < rest.len() {
                    assert(rest[k] == x);
                }
            }
            if rest.contains(x) {
                let k = choose|k: int| 0 <= k < rest.len() && rest[k] == x;
                assert(stack[k] == x);
            }
        }
        if seen.contains(n) {
            assert forall|x: u64| #[trigger] rest.contains(x) implies nodes.contains(x)
                && connected(edges, start, x) by {
                assert(stack.contains(x));
            }
            lemma_explored(edges, nodes, rest, seen, start, base);
            assert forall|x: u64| #[trigger] stack.contains(x) implies r.contains(x) by {
                if x == n {
                    let k = choose|k: int| 0 <= k < seen.len() && seen[k] == n;
                    assert(r.take(seen.len() as int)[k] == r[k]);
                }
            }
        } else {
            lemma_open_nodes_shrink(nodes, seen, n);
            lemma_neighbours(edges, n);
            let seen2 = seen.push(n);
            let fresh = unseen(neighbours(edges, n), seen2);
            let stack2 = rest + fresh;
            let keep = |x: u64| !seen2.contains(x);
            assert forall|x: u64| #[trigger] seen2.contains(x) <==> seen.contains(x) || x
                == n by {
                if seen.contains(x) {
                    let k = choose|k: int| 0 <= k < seen.len() && seen[k] == x;
                    assert(seen2[k] == x);
                }
                assert(seen2[seen.len() as int] == n);
            }
            assert forall|x: u64| #[trigger] fresh.contains(x) <==> linked(edges, n, x)
                && !seen2.contains(x) by {
                let all = neighbours(edges, n);
                if fresh.contains(x) {
                    let k = choose|k: int| 0 <= k < fresh.len() && fresh[k] == x;
                    all.lemma_filter_pred(keep, k);
                    all.lemma_filter_contains_rev(keep, x);
                }
                if linked(edges, n, x) && !seen2.contains(x) {
                    assert(all.contains(x));
                    let k = choose|k: int| 0 <= k < all.len() && all[k] == x;
                    all.lemma_filter_contains(keep, k);
                }
            }
            assert forall|x: u64| #[trigger] stack2.contains(x) <==> rest.contains(x)
                || fresh.contains(x) by {
                if stack2.contains(x) {
                    let k = choose|k: int| 0 <= k < stack2.len() && stack2[k] == x;
                    if k < rest.len() {
                        assert(rest[k] == x);
                    } else {
                        assert(fresh[k - rest.len()] == x);
                    }
                }
                if rest.contains(x) {
                    let k = choose|k: int| 0 <= k < rest.len() && rest[k] == x;
                    assert(stack2[k] == x);
                }
                if fresh.contains(x) {
                    let k = choose|k: int| 0 <= k < fresh.len() && fresh[k] == x;
                    assert(stack2[rest.len() + k] == x);
                }
            }
            assert forall|x: u64| #[trigger] stack2.contains(x) implies nodes.contains(x)
                && connected(edges, start, x) by {
                if rest.contains(x) {
                    assert(stack.contains(x));
                } else {
                    assert(linked(edges, n, x));
                    lemma_connected_step(edges, start, n, x);
                }
            }
            assert forall|x: u64, y: u64|
                seen2.contains(x) && #[trigger] linked(edges, x, y) implies seen2.contains(y)
                || stack2.contains(y) by {
                if seen.contains(x) {
                    assert(seen.contains(y) || stack.contains(y));
                } else {
                    assert(fresh.contains(y) || seen2.contains(y));
                }
            }
            assert forall|i: int| base <= i < seen2.len() implies connected(
                edges,
                start,
                #[trigger] seen2[i],
            ) by {
                if i < seen.len() {
                    assert(connected(edges, start, seen[i]));
                }
            }
            lemma_explored(edges, nodes, stack2, seen2, start, base);
            assert(r == explored(edges, nodes, stack2, seen2));
            assert(r.take(seen.len() as int) =~= seen) by {
                assert forall|i: int| 0 <= i < seen.len() implies r[i] == seen[i] by {
                    assert(r.take(seen2.len() as int)[i] == seen2[i]);
                }
            }
            assert forall|x: u64| #[trigger] stack.contains(x) implies r.contains(x) by {
                if x == n {
                    assert(r.take(seen2.len() as int)[seen.len() as int] == n);
                    assert(r[seen.len() as int] == n);
                } else {
                    assert(stack2.contains(x));
                }
            }
        }
    }
}

/// What holds of a list of components of the nodes in `seen`.
pub open spec fn parts(edges: Seq<(u64, u64)>, seen: Seq<u64>, found: Seq<Seq<u64>>) -> bool {
    &&& forall|c: int| 0 <= c < found.len() ==> (#[trigger] found[c]).no_duplicates()
        && found[c].len() > 0
    &&& forall|x: u64| #[trigger] seen.contains(x) <==> exists|c: int|
        0 <= c < found.len() && (#[trigger] found[c]).contains(x)
    &&& forall|c: int, d: int, x: u64|
        0 <= c < found.len() && 0 <= d < found.len() && #[trigger] found[c].contains(x)
            && #[trigger] found[d].contains(x) ==> c == d
    &&& forall|c: int, x: u64, y: u64|
        0 <= c < found.len() && #[trigger] found[c].contains(x) && #[trigger] found[c].contains(y)
            ==> connected(edges, x, y)
    &&& forall|c: int, x: u64, y: u64|
        0 <= c < found.len() && #[trigger] found[c].contains(x) && #[trigger] linked(edges, x, y)
            ==> found[c].contains(y)
}

proof fn lemma_swept(edges: Seq<(u64, u64)>, nodes: Seq<u64>, k: nat)
    requires
        forall|x: u64, y: u64| nodes.contains(x) && #[trigger] linked(edges, x, y)
            ==> nodes.contains(y),
        k <= nodes.len(),
    ensures
        ({
            let (seen, found) = swept(edges, nodes, k);
            &&& seen.no_duplicates()
            &&& forall|x: u64| #[trigger] seen.contains(x) ==> nodes.contains(x)
            &&& closed_but(edges, seen, Seq::empty())
            &&& forall|i: int| 0 <= i < k ==> seen.contains(#[trigger] nodes[i])
            &&& parts(edges, seen, found)
        }),
    decreases k,
{
    let (seen2, found2) = swept(edges, nodes, k);
    if k > 0 {
        let (seen, found) = swept(edges, nodes, (k - 1) as nat);
        lemma_swept(edges, nodes, (k - 1) as nat);
        let n = nodes[k - 1];
        assert(nodes.contains(n));
        if !seen.contains(n) {
            let stack = seq![n];
            assert forall|x: u64| #[trigger] stack.contains(x) implies nodes.contains(x)
                && connected(edges, n, x) by {
                lemma_connected_self(edges, n);
            }
            assert(closed_but(edges, seen, stack)) by {
                assert forall|x: u64, y: u64|
                    seen.contains(x) && #[trigger] linked(edges, x, y) implies seen.contains(y)
                    || stack.contains(y) by {
                    assert(seen.contains(y) || Seq::<u64>::empty().contains(y));
                }
            }
            lemma_explored(edges, nodes, stack, seen, n, seen.len() as int);
            let comp = seen2.skip(seen.len() as int);
            assert(stack[0] == n);
            assert(stack.contains(n));
            assert(seen2.contains(n));
            assert(seen2 =~= seen + comp) by {
                assert(seen2.take(seen.len() as int) =~= seen);
                assert forall|i: int| 0 <= i < seen.len() implies seen2[i] == seen[i] by {
                    assert(seen2.take(seen.len() as int)[i] == seen[i]);
                }
            }
            assert forall|x: u64| #[trigger] seen2.contains(x) <==> seen.contains(x)
                || comp.contains(x) by {
                if seen2.contains(x) {
                    let i = choose|i: int| 0 <= i < seen2.len() && seen2[i] == x;
                    if i < seen.len() {
                        assert(seen[i] == x);
                    } else {
                        assert(comp[i - seen.len()] == x);
                    }
                }
                if seen.contains(x) {
                    let i = choose|i: int| 0 <= i < seen.len() && seen[i] == x;
                    assert(seen2[i] == x);
                }
                if comp.contains(x) {
                    let i = choose|i: int| 0 <= i < comp.len() && comp[i] == x;
                    assert(seen2[seen.len() + i] == x);
                }
            }
            assert forall|x: u64| !(seen.contains(x) && #[trigger] comp.contains(x)) by {
                if seen.contains(x) && comp.contains(x) {
                    let i = choose|i: int| 0 <= i < seen.len() && seen[i] == x;
                    let j = choose|j: int| 0 <= j < comp.len() && comp[j] == x;
                    assert(seen2[i] == seen2[seen.len() + j]);
                }
            }
            assert(comp.contains(n));
            assert(comp.no_duplicates()) by {
                assert forall|i: int, j: int| 0 <= i < comp.len() && 0 <= j < comp.len() && i
                    != j implies comp[i] != comp[j] by {
                    assert(seen2[seen.len() + i] != seen2[seen.len() + j]);
                }
            }
            assert(comp.len() > 0);
            let m = found.len() as int;
            assert forall|c: int| 0 <= c < found2.len() implies (#[trigger]
            found2[c]).no_duplicates() && found2[c].len() > 0 by {
                if c < m {
                    assert(found2[c] == found[c]);
                }
            }
            assert forall|x: u64| #[trigger] seen2.contains(x) <==> exists|c: int|
                0 <= c < found2.len() && (#[trigger] found2[c]).contains(x) by {
                if seen.contains(x) {
                    let c = choose|c: int|
                        0 <= c < found.len() && (#[trigger] found[c]).contains(x);
                    assert(found2[c].contains(x));
                }
                if comp.contains(x) {
                    assert(found2[m].contains(x));
                }
                if exists|c: int| 0 <= c < found2.len() && (#[trigger] found2[c]).contains(x) {
                    let c = choose|c: int|
                        0 <= c < found2.len() && (#[trigger] found2[c]).contains(x);
                    if c < m {
                        assert(found[c].contains(x));
                    }
                }
            }
            assert forall|c: int, d: int, x: u64|
                0 <= c < found2.len() && 0 <= d < found2.len() && #[trigger] found2[c].contains(
                    x,
                ) && #[trigger] found2[d].contains(x) implies c == d by {
                if c < m {
                    assert(found[c].contains(x));
                    assert(seen.contains(x));
                }
                if d < m {
                    assert(found[d].contains(x));
                    assert(seen.contains(x));
                }
            }
            assert forall|c: int, x: u64, y: u64|
                0 <= c < found2.len() && #[trigger] found2[c].contains(x)
                    && #[trigger] found2[c].contains(y) implies connected(edges, x, y) by {
                if c < m {
                    assert(found[c].contains(x) && found[c].contains(y));
                } else {
                    let i = choose|i: int| 0 <= i < comp.len() && comp[i] == x;
                    let j = choose|j: int| 0 <= j < comp.len() && comp[j] == y;
                    assert(connected(edges, n, seen2[seen.len() + i]));
                    assert(connected(edges, n, seen2[seen.len() + j]));
                    lemma_connected_back(edges, n, x);
                    lemma_connected_join(edges, x, n, y);
                }
            }
            assert forall|c: int, x: u64, y: u64|
                0 <= c < found2.len() && #[trigger] found2[c].contains(x)
                    && #[trigger] linked(edges, x, y) implies found2[c].contains(y) by {
                if c < m {
                    assert(found[c].contains(x));
                } else {
                    assert(seen2.contains(x));
                    assert(seen2.contains(y) || Seq::<u64>::empty().contains(y));
                    if seen.contains(y) {
                        assert(linked(edges, y, x));
                        assert(seen.contains(x) || Seq::<u64>::empty().contains(x));
                    }
                }
            }
            assert(parts(edges, seen2, found2));
            assert forall|i: int| 0 <= i < k implies seen2.contains(#[trigger] nodes[i]) by {
                if i < k - 1 {
                    assert(seen.contains(nodes[i]));
                }
            }
        }
    } else {
        assert(parts(edges, seen2, found2));
    }
}

/// A path never leads out of a component.
proof fn lemma_path_stays(
    edges: Seq<(u64, u64)>,
    seen: Seq<u64>,
    found: Seq<Seq<u64>>,
    c: int,
    p: Seq<u64>,
)
    requires
        parts(edges, seen, found),
        0 <= c < found.len(),
        is_path(edges, p),
        found[c].contains(p[0]),
    ensures
        found[c].contains(p.last()),
    decreases p.len(),
{
    if p.len() > 1 {
        let q = p.drop_last();
        assert forall|i: int| 0 <= i < q.len() - 1 implies linked(
            edges,
            #[trigger] q[i],
            q[i + 1],
        ) by {
            assert(linked(edges, p[i], p[i + 1]));
        }
        lemma_path_stays(edges, seen, found, c, q);
        assert(linked(edges, p[p.len() - 2], p[p.len() - 1]));
    }
}

/// The components part the nodes of the graph: every node is in exactly one, once; and two nodes
/// are in the same component if and only if a path leads from one to the other.
pub proof fn lemma_components(seeds: Seq<u64>, edges: Seq<(u64, u64)>)
    ensures
        parts(edges, graph_nodes(seeds, edges), components_of(seeds, edges)),
        forall|c: int, x: u64, y: u64|
            0 <= c < components_of(seeds, edges).len()
                && #[trigger] components_of(seeds, edges)[c].contains(x) ==> (
            components_of(seeds, edges)[c].contains(y) <==> #[trigger] connected(edges, x, y)),
{
    let nodes = graph_nodes(seeds, edges);
    let found = components_of(seeds, edges);
    lemma_graph_nodes(seeds, edges);
    assert forall|x: u64, y: u64| nodes.contains(x) && #[trigger] linked(edges, x, y) implies
        nodes.contains(y) by {
        assert(linked(edges, y, x));
    }
    lemma_swept(edges, nodes, nodes.len());
    let seen = swept(edges, nodes, nodes.len()).0;
    assert forall|x: u64| #[trigger] nodes.contains(x) <==> seen.contains(x) by {
        if nodes.contains(x) {
            let i = choose|i: int| 0 <= i < nodes.len() && nodes[i] == x;
            assert(seen.contains(nodes[i]));
        }
    }
    assert(parts(edges, nodes, found)) by {
        assert forall|x: u64| #[trigger] nodes.contains(x) <==> exists|c: int|
            0 <= c < found.len() && (#[trigger] found[c]).contains(x) by {
            assert(seen.contains(x) == nodes.contains(x));
        }
    }
    assert forall|c: int, x: u64, y: u64|
        0 <= c < found.len() && #[trigger] found[c].contains(x) implies (found[c].contains(y)
        <==> #[trigger] connected(edges, x, y)) by {
        if connected(edges, x, y) {
            let p = choose|p: Seq<u64>| #[trigger]
                is_path(edges, p) && p[0] == x && p.last() == y;
            lemma_path_stays(edges, nodes, found, c, p);
        }
    }
}

} // verus!
