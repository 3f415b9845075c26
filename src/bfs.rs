use vstd::prelude::*;
use std::collections::HashMap;
use std::collections::HashSet;

verus! {

broadcast use vstd::std_specs::hash::group_hash_axioms;

/// The node every traversal starts from.
pub const START_NODE: usize = 0;

/// The neighbours that `graph` lists for `v`; none where `v` has no entry.
pub open spec fn neighbors(graph: Map<usize, Vec<usize>>, v: usize) -> Seq<usize> {
    if graph.contains_key(v) {
        graph[v]@
    } else {
        Seq::empty()
    }
}

/// `order[i]` is among the neighbours of a node listed before it.
pub open spec fn found_before(graph: Map<usize, Vec<usize>>, order: Seq<usize>, i: int) -> bool {
    exists|p: int| 0 <= p < i && #[trigger] neighbors(graph, order[p]).contains(order[i])
}

/// Each node of `order` after the first was found among the neighbours of an earlier one.
pub open spec fn discovered_in_order(graph: Map<usize, Vec<usize>>, order: Seq<usize>) -> bool {
    forall|i: int| 0 < i < order.len() ==> #[trigger] found_before(graph, order, i)
}

/// Every neighbour of the first `n` nodes of `order` occurs in `order`.
pub open spec fn closed_upto(graph: Map<usize, Vec<usize>>, order: Seq<usize>, n: int) -> bool {
    forall|i: int, u: usize|
        0 <= i < n && #[trigger] neighbors(graph, order[i]).contains(u) ==> order.contains(u)
}

/// `p` is the earliest position in `order` whose node lists `order[i]` as a neighbour,
/// and it comes before `i`.
pub open spec fn parent_at(graph: Map<usize, Vec<usize>>, order: Seq<usize>, i: int, p: int) -> bool {
    &&& 0 <= p < i
    &&& neighbors(graph, order[p]).contains(order[i])
    &&& forall|q: int| 0 <= q < p ==> !(#[trigger] neighbors(graph, order[q])).contains(order[i])
}

/// `k` is the first position of `x` in `s`.
pub open spec fn first_at(s: Seq<usize>, x: usize, k: int) -> bool {
    &&& 0 <= k < s.len()
    &&& s[k] == x
    &&& forall|t: int| 0 <= t < k ==> #[trigger] s[t] != x
}

/// Nodes come in the order they were discovered: by their parent (the earliest
/// listed node that has them as a neighbour), and under one parent by their
/// first position in its neighbour list.
pub open spec fn discovery_ordered(graph: Map<usize, Vec<usize>>, order: Seq<usize>) -> bool {
    forall|i: int, j: int, pi: int, pj: int, ki: int, kj: int|
        0 < i < j < order.len() && #[trigger] parent_at(graph, order, i, pi) && #[trigger] parent_at(
            graph,
            order,
            j,
            pj,
        ) && #[trigger] first_at(neighbors(graph, order[pi]), order[i], ki) && #[trigger] first_at(
            neighbors(graph, order[pj]),
            order[j],
            kj,
        ) ==> pi < pj || (pi == pj && ki < kj)
}

/// `par` and `pos` give the parent of each node of `order` after the first,
/// and its first position in the parent's neighbour list.
spec fn records(graph: Map<usize, Vec<usize>>, order: Seq<usize>, par: Seq<int>, pos: Seq<int>) -> bool {
    &&& par.len() == order.len()
    &&& pos.len() == order.len()
    &&& forall|i: int|
        0 < i < order.len() ==> parent_at(graph, order, i, #[trigger] par[i]) && first_at(
            neighbors(graph, order[par[i]]),
            order[i],
            pos[i],
        )
}

/// The recorded (parent, position) pairs increase along the order.
spec fn ordered_records(par: Seq<int>, pos: Seq<int>) -> bool {
    forall|i: int, j: int|
        0 < i < j < par.len() ==> #[trigger] par[i] < #[trigger] par[j] || (par[i] == par[j]
            && pos[i] < pos[j])
}

/// Recording a node found at position `k` of the neighbours of `order[h]`.
proof fn lemma_record_discovery(
    graph: Map<usize, Vec<usize>>,
    order: Seq<usize>,
    par: Seq<int>,
    pos: Seq<int>,
    h: int,
    k: int,
    u: usize,
)
    requires
        records(graph, order, par, pos),
        ordered_records(par, pos),
        0 <= h < order.len(),
        closed_upto(graph, order, h),
        !order.contains(u),
        0 <= k < neighbors(graph, order[h]).len(),
        neighbors(graph, order[h])[k] == u,
        forall|t: int| 0 <= t < k ==> order.contains(#[trigger] neighbors(graph, order[h])[t]),
        forall|i: int| 0 < i < order.len() ==> #[trigger] par[i] < h || (par[i] == h && pos[i] < k),
    ensures
        records(graph, order.push(u), par.push(h), pos.push(k)),
        ordered_records(par.push(h), pos.push(k)),
        forall|i: int|
            0 < i < order.len() + 1 ==> #[trigger] par.push(h)[i] < h || (par.push(h)[i] == h
                && pos.push(k)[i] < k + 1),
{
    let o2 = order.push(u);
    let n = order.len() as int;
    let ns = neighbors(graph, order[h]);
    assert forall|q: int| 0 <= q < h implies !(#[trigger] neighbors(graph, o2[q])).contains(o2[n]) by {
        assert(o2[q] == order[q]);
        if neighbors(graph, order[q]).contains(u) {
            assert(order.contains(u));
        }
    }
    assert(o2[h] == order[h]);
    assert(parent_at(graph, o2, n, h));
    assert forall|t: int| 0 <= t < k implies #[trigger] ns[t] != u by {
        assert(order.contains(ns[t]));
    }
    assert(first_at(ns, u, k));
    assert forall|i: int| 0 < i < o2.len() implies parent_at(graph, o2, i, #[trigger] par.push(h)[i])
        && first_at(neighbors(graph, o2[par.push(h)[i]]), o2[i], pos.push(k)[i]) by {
        if i < n {
            let p = par[i];
            assert(par.push(h)[i] == p);
            assert(parent_at(graph, order, i, p));
            assert forall|q: int| 0 <= q < p implies !(#[trigger] neighbors(graph, o2[q])).contains(
                o2[i],
            ) by {
                assert(o2[q] == order[q]);
                assert(!neighbors(graph, order[q]).contains(order[i]));
            }
            assert(o2[p] == order[p]);
        }
    }
    assert forall|i: int, j: int| 0 < i < j < o2.len() implies #[trigger] par.push(h)[i]
        < #[trigger] par.push(h)[j] || (par.push(h)[i] == par.push(h)[j] && pos.push(k)[i]
        < pos.push(k)[j]) by {
        assert(par[i] < h || (par[i] == h && pos[i] < k));
        if j < n {
            assert(par[i] < par[j] || (par[i] == par[j] && pos[i] < pos[j]));
        }
    }
}

/// Recorded parents and positions are the only ones, so increasing records
/// make the order discovery-ordered.
proof fn lemma_records_ordered(
    graph: Map<usize, Vec<usize>>,
    order: Seq<usize>,
    par: Seq<int>,
    pos: Seq<int>,
)
    requires
        records(graph, order, par, pos),
        ordered_records(par, pos),
    ensures
        discovery_ordered(graph, order),
{
    assert forall|i: int, j: int, pi: int, pj: int, ki: int, kj: int|
        0 < i < j < order.len() && #[trigger] parent_at(graph, order, i, pi) && #[trigger] parent_at(
            graph,
            order,
            j,
            pj,
        ) && #[trigger] first_at(neighbors(graph, order[pi]), order[i], ki) && #[trigger] first_at(
            neighbors(graph, order[pj]),
            order[j],
            kj,
        ) implies pi < pj || (pi == pj && ki < kj) by {
        assert(parent_at(graph, order, i, par[i]));
        assert(parent_at(graph, order, j, par[j]));
        assert(pi == par[i]) by {
            if pi < par[i] {
                assert(!neighbors(graph, order[pi]).contains(order[i]));
            }
            if par[i] < pi {
                assert(!neighbors(graph, order[par[i]]).contains(order[i]));
            }
        }
        assert(pj == par[j]) by {
            if pj < par[j] {
                assert(!neighbors(graph, order[pj]).contains(order[j]));
            }
            if par[j] < pj {
                assert(!neighbors(graph, order[par[j]]).contains(order[j]));
            }
        }
        let si = neighbors(graph, order[pi]);
        let sj = neighbors(graph, order[pj]);
        assert(ki == pos[i]) by {
            if ki < pos[i] {
                assert(si[ki] != order[i]);
            }
            if pos[i] < ki {
                assert(si[pos[i]] != order[i]);
            }
        }
        assert(kj == pos[j]) by {
            if kj < pos[j] {
                assert(sj[kj] != order[j]);
            }
            if pos[j] < kj {
                assert(sj[pos[j]] != order[j]);
            }
        }
        assert(par[i] < par[j] || (par[i] == par[j] && pos[i] < pos[j]));
    }
}

/// Appending a neighbour of an already listed node keeps every node discovered in order.
proof fn lemma_discovered_push(graph: Map<usize, Vec<usize>>, before: Seq<usize>, u: usize, h: int)
    requires
        discovered_in_order(graph, before),
        0 <= h < before.len(),
        neighbors(graph, before[h]).contains(u),
    ensures
        discovered_in_order(graph, before.push(u)),
{
    let after = before.push(u);
    assert forall|i: int| 0 < i < after.len() implies #[trigger] found_before(graph, after, i) by {
        if i == before.len() {
            assert(after[h] == before[h]);
            assert(neighbors(graph, after[h]).contains(after[i]));
        } else {
            assert(after[i] == before[i]);
            assert(found_before(graph, before, i));
            let p = choose|p: int|
                0 <= p < i && #[trigger] neighbors(graph, before[p]).contains(before[i]);
            assert(after[p] == before[p]);
            assert(neighbors(graph, after[p]).contains(after[i]));
        }
    }
}

/// What a sequence holds after a push.
proof fn lemma_push_contains(s: Seq<usize>, u: usize)
    ensures
        forall|x: usize| #[trigger] s.push(u).contains(x) <==> s.contains(x) || x == u,
{
    let t = s.push(u);
    assert(t[s.len() as int] == u);
    assert forall|x: usize| #[trigger] t.contains(x) <==> s.contains(x) || x == u by {
        if s.contains(x) {
            let j = choose|j: int| 0 <= j < s.len() && s[j] == x;
            assert(t[j] == x);
        }
        if t.contains(x) && x != u {
            let j = choose|j: int| 0 <= j < t.len() && t[j] == x;
            assert(s[j] == x);
        }
    }
}

/// The example graph: five nodes whose edges form several cycles.
pub fn fill_list_graph() -> (graph: HashMap<usize, Vec<usize>>)
    ensures
        graph@.dom() == set![0usize, 1, 2, 3, 4],
        graph@[0]@ == seq![1usize, 2],
        graph@[1]@ == seq![0usize, 3],
        graph@[2]@ == seq![1usize, 3],
        graph@[3]@ == seq![2usize, 4],
        graph@[4]@ == seq![0usize, 3],
{
    let mut graph: HashMap<usize, Vec<usize>> = HashMap::new();
    graph.insert(0, edges(1, 2));
    graph.insert(1, edges(0, 3));
    graph.insert(2, edges(1, 3));
    graph.insert(3, edges(2, 4));
    graph.insert(4, edges(0, 3));
    graph
}

/// A neighbour list of two nodes.
fn edges(a: usize, b: usize) -> (r: Vec<usize>)
    ensures
        r@ == seq![a, b],
{
    let mut r: Vec<usize> = Vec::new();
    r.push(a);
    r.push(b);
    r
}

/// Breadth-first traversal of `graph` from `START_NODE`.
///
/// Returns the nodes in the order they are visited: each node once, each found
/// among the neighbours of a node visited before it, and every neighbour of a
/// visited node visited too.
pub fn bfs(graph: &HashMap<usize, Vec<usize>>) -> (order: Vec<usize>)
    ensures
        order@.len() > 0,
        order@[0] == START_NODE,
        order@.no_duplicates(),
        discovered_in_order(graph@, order@),
        discovery_ordered(graph@, order@),
        closed_upto(graph@, order@, order@.len() as int),
{
    let mut order: Vec<usize> = Vec::new();
    let mut visited: HashSet<usize> = HashSet::new();
    order.push(START_NODE);
    visited.insert(START_NODE);
    proof {
        assert forall|x: usize| visited@.contains(x) <==> order@.contains(x) by {
            if x == START_NODE {
                assert(order@[0] == x);
            }
        }
    }
    let mut head: usize = 0;
    let ghost mut par: Seq<int> = seq![-1int];
    let ghost mut pos: Seq<int> = seq![0int];
    while head < order.len()
        invariant
            head <= order.len(),
            order@.len() > 0,
            order@[0] == START_NODE,
            order@.no_duplicates(),
            forall|x: usize| visited@.contains(x) <==> order@.contains(x),
            discovered_in_order(graph@, order@),
            closed_upto(graph@, order@, head as int),
            records(graph@, order@, par, pos),
            ordered_records(par, pos),
            forall|i: int| 0 < i < order@.len() ==> #[trigger] par[i] < head,
        decreases usize::MAX - head,
    {
        let node = order[head];
        match graph.get(&node) {
            Some(ns) => {
                let mut k: usize = 0;
                while k < ns.len()
                    invariant
                        k <= ns.len(),
                        ns@ == neighbors(graph@, node),
                        head < order.len(),
                        order@[head as int] == node,
                        order@[0] == START_NODE,
                        order@.no_duplicates(),
                        forall|x: usize| visited@.contains(x) <==> order@.contains(x),
                        discovered_in_order(graph@, order@),
                        closed_upto(graph@, order@, head as int),
                        forall|t: int| 0 <= t < k ==> order@.contains(#[trigger] ns@[t]),
                        records(graph@, order@, par, pos),
                        ordered_records(par, pos),
                        forall|i: int|
                            0 < i < order@.len() ==> #[trigger] par[i] < head || (par[i] == head
                                && pos[i] < k),
                    decreases ns.len() - k,
                {
                    let u = ns[k];
                    let ghost seen = order@;
                    if !visited.contains(&u) {
                        let ghost before = order@;
                        proof {
                            assert(!order@.contains(u));
                            lemma_record_discovery(
                                graph@,
                                order@,
                                par,
                                pos,
                                head as int,
                                k as int,
                                u,
                            );
                            par = par.push(head as int);
                            pos = pos.push(k as int);
                        }
                        visited.insert(u);
                        order.push(u);
                        proof {
                            lemma_discovered_push(graph@, before, u, head as int);
                            lemma_push_contains(before, u);
                        }
                    }
                    proof {
                        assert(order@.contains(u));
                        assert forall|t: int| 0 <= t <= k implies order@.contains(
                            #[trigger] ns@[t],
                        ) by {
                            if t < k {
                                assert(seen.contains(ns@[t]));
                                lemma_push_contains(seen, u);
                            }
                        }
                    }
                    k = k + 1;
                }
            },
            None => {},
        }
        head = head + 1;
    }
    proof {
        lemma_records_ordered(graph@, order@, par, pos);
    }
    order
}

} // verus!
