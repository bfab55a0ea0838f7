//! The dependency order resolver: services are ordered so that each comes
//! after everything it depends on, directly or transitively.
//!
//! The traversal is a depth-first post-order walk with three colours, so a
//! shared dependency (a diamond) is emitted once and a cycle is reported
//! instead of recursing without end.
use vstd::prelude::*;
use crate::text::str_eq;

verus! {

/// A service with its generated identifier and the services it depends on.
/// Only the names of the entries in `parent` are read.
pub struct DependencyComponent {
    pub id: String,
    pub name: String,
    pub parent: Vec<DependencyComponent>,
}

impl DependencyComponent {
    /// A component with no dependencies.
    pub fn new(id: String, name: String) -> (r: Self)
        ensures
            r.id == id,
            r.name == name,
            r.parent@.len() == 0,
    {
        DependencyComponent { id, name, parent: Vec::new() }
    }
}

pub const WHITE: u8 = 0;
pub const GRAY: u8 = 1;
pub const BLACK: u8 = 2;

/// `u` depends directly on `p` in the graph of parent indices `g`.
pub open spec fn has_edge(g: Seq<Vec<usize>>, u: int, p: int) -> bool {
    0 <= u < g.len() && 0 <= p < g.len() && g[u]@.contains(p as usize)
}

/// Every parent index of `g` names a node of `g`.
pub open spec fn graph_wf(g: Seq<Vec<usize>>) -> bool {
    forall|u: int, k: int| 0 <= u < g.len() && 0 <= k < g[u]@.len() ==> (#[trigger] g[u]@[k]) < g.len()
}

/// The edge relation of the graph of parent indices `g`.
pub open spec fn graph_edge(g: Seq<Vec<usize>>) -> spec_fn(int, int) -> bool {
    |u: int, p: int| has_edge(g, u, p)
}

/// `path` follows `edge` from its first node to its last, through nodes below `n`.
pub open spec fn is_path(edge: spec_fn(int, int) -> bool, n: int, path: Seq<int>) -> bool {
    &&& path.len() >= 1
    &&& forall|k: int| 0 <= k < path.len() ==> 0 <= #[trigger] path[k] < n
    &&& forall|k: int| 0 <= k < path.len() - 1 ==> edge(#[trigger] path[k], path[k + 1])
}

/// `path` is a closed walk along `edge`.
pub open spec fn is_cycle(edge: spec_fn(int, int) -> bool, n: int, path: Seq<int>) -> bool {
    &&& path.len() >= 2
    &&& is_path(edge, n, path)
    &&& path[0] == path[path.len() - 1]
}

pub open spec fn has_cycle(edge: spec_fn(int, int) -> bool, n: int) -> bool {
    exists|path: Seq<int>| is_cycle(edge, n, path)
}

/// Two edge relations that agree on all nodes below `n` have the same cycles.
pub proof fn lemma_same_cycles(e1: spec_fn(int, int) -> bool, e2: spec_fn(int, int) -> bool, n: int)
    requires
        forall|u: int, p: int| 0 <= u < n && 0 <= p < n ==> #[trigger] e1(u, p) == #[trigger] e2(u, p),
    ensures
        has_cycle(e1, n) == has_cycle(e2, n),
{
    if has_cycle(e1, n) {
        let path = choose|path: Seq<int>| is_cycle(e1, n, path);
        assert forall|k: int| 0 <= k < path.len() - 1 implies e2(#[trigger] path[k], path[k + 1]) by {
            assert(e1(path[k], path[k + 1]));
        }
        assert(is_cycle(e2, n, path));
    }
    if has_cycle(e2, n) {
        let path = choose|path: Seq<int>| is_cycle(e2, n, path);
        assert forall|k: int| 0 <= k < path.len() - 1 implies e1(#[trigger] path[k], path[k + 1]) by {
            assert(e2(path[k], path[k + 1]));
        }
        assert(is_cycle(e1, n, path));
    }
}

/// `order` lists every node below `n` exactly once, each after all the nodes
/// it has an `edge` to.
pub open spec fn is_topological(edge: spec_fn(int, int) -> bool, n: int, order: Seq<usize>) -> bool {
    &&& order.len() == n
    &&& order.no_duplicates()
    &&& forall|i: int| 0 <= i < order.len() ==> #[trigger] order[i] < n
    &&& forall|v: int| 0 <= v < n ==> #[trigger] order.contains(v as usize)
    &&& precedes_parents(edge, order)
}

/// Every node in `order` comes after each node it has an `edge` to.
pub open spec fn precedes_parents(edge: spec_fn(int, int) -> bool, order: Seq<usize>) -> bool {
    forall|i: int, p: int|
        0 <= i < order.len() && #[trigger] edge(order[i] as int, p) ==> exists|j: int|
            0 <= j < i && order[j] == p
}

/// The number of unvisited nodes.
pub open spec fn white_count(c: Seq<u8>) -> nat
    decreases c.len(),
{
    if c.len() == 0 {
        0
    } else {
        white_count(c.drop_last()) + if c.last() == WHITE { 1nat } else { 0nat }
    }
}

/// Colours only move forward: black stays black, gray stays gray, and no node
/// becomes white again.
pub open spec fn progress(a: Seq<u8>, b: Seq<u8>) -> bool {
    &&& a.len() == b.len()
    &&& forall|i: int| 0 <= i < a.len() && a[i] == BLACK ==> #[trigger] b[i] == BLACK
    &&& forall|i: int| 0 <= i < a.len() && a[i] == GRAY ==> #[trigger] b[i] == GRAY
    &&& forall|i: int| 0 <= i < a.len() && #[trigger] b[i] == WHITE ==> a[i] == WHITE
}

/// The state of the walk: gray nodes are exactly those on the `stack`, which
/// follows dependency edges; black nodes are exactly those in `order`, each
/// listed once and after its dependencies.
pub open spec fn dfs_inv(g: Seq<Vec<usize>>, color: Seq<u8>, order: Seq<usize>, stack: Seq<int>) -> bool {
    &&& graph_wf(g)
    &&& color.len() == g.len()
    &&& forall|i: int| 0 <= i < color.len() ==> #[trigger] color[i] <= BLACK
    &&& forall|i: int| 0 <= i < color.len() ==> (#[trigger] color[i] == GRAY <==> stack.contains(i))
    &&& stack.len() > 0 ==> is_path(graph_edge(g), g.len() as int, stack)
    &&& forall|k: int| 0 <= k < stack.len() ==> 0 <= #[trigger] stack[k] < g.len()
    &&& order.no_duplicates()
    &&& forall|i: int| 0 <= i < order.len() ==> #[trigger] order[i] < g.len()
    &&& forall|i: int| 0 <= i < color.len() ==> (#[trigger] color[i] == BLACK <==> order.contains(i as usize))
    &&& precedes_parents(graph_edge(g), order)
}

proof fn lemma_white_count_decreases(a: Seq<u8>, b: Seq<u8>, u: int)
    requires
        a.len() == b.len(),
        forall|i: int| 0 <= i < a.len() && #[trigger] b[i] == WHITE ==> a[i] == WHITE,
    ensures
        white_count(b) <= white_count(a),
        0 <= u < a.len() && a[u] == WHITE && b[u] != WHITE ==> white_count(b) < white_count(a),
    decreases a.len(),
{
    if a.len() > 0 {
        let n = a.len() - 1;
        assert forall|i: int| 0 <= i < a.drop_last().len() && #[trigger] b.drop_last()[i] == WHITE implies a.drop_last()[i]
            == WHITE by {
            assert(b[i] == WHITE);
        }
        lemma_white_count_decreases(a.drop_last(), b.drop_last(), u);
        if b.last() == WHITE {
            assert(b[n] == WHITE);
        }
    }
}

proof fn lemma_progress_trans(a: Seq<u8>, b: Seq<u8>, c: Seq<u8>)
    requires
        progress(a, b),
        progress(b, c),
    ensures
        progress(a, c),
{
    assert forall|i: int| 0 <= i < a.len() && a[i] == BLACK implies #[trigger] c[i] == BLACK by {
        assert(b[i] == BLACK);
    }
    assert forall|i: int| 0 <= i < a.len() && a[i] == GRAY implies #[trigger] c[i] == GRAY by {
        assert(b[i] == GRAY);
    }
    assert forall|i: int| 0 <= i < a.len() && #[trigger] c[i] == WHITE implies a[i] == WHITE by {
        assert(b[i] == WHITE);
    }
}

/// An edge from the top of a walk back to a node on it closes a cycle.
proof fn lemma_back_edge_cycle(g: Seq<Vec<usize>>, walk: Seq<int>, p: int)
    requires
        is_path(graph_edge(g), g.len() as int, walk),
        walk.contains(p),
        has_edge(g, walk.last(), p),
    ensures
        has_cycle(graph_edge(g), g.len() as int),
{
    let j = choose|j: int| 0 <= j < walk.len() && walk[j] == p;
    let cycle = walk.subrange(j, walk.len() as int).push(p);
    assert forall|m: int| 0 <= m < cycle.len() - 1 implies graph_edge(g)(#[trigger] cycle[m], cycle[m + 1]) by {
        if m < cycle.len() - 2 {
            assert(cycle[m] == walk[j + m] && cycle[m + 1] == walk[j + m + 1]);
        } else {
            assert(cycle[m] == walk[walk.len() - 1]);
        }
    }
    assert(is_cycle(graph_edge(g), g.len() as int, cycle));
}

/// Visits `u` and, before it, every dependency of `u` not yet visited.
fn traverse_in_hierarchy(
    g: &Vec<Vec<usize>>,
    u: usize,
    color: &mut Vec<u8>,
    order: &mut Vec<usize>,
    Ghost(stack): Ghost<Seq<int>>,
) -> (r: Result<(), usize>)
    requires
        dfs_inv(g@, old(color)@, old(order)@, stack),
        u < g@.len(),
        old(color)@[u as int] == WHITE,
        stack.len() > 0 ==> has_edge(g@, stack.last(), u as int),
    ensures
        progress(old(color)@, final(color)@),
        r is Ok ==> dfs_inv(g@, final(color)@, final(order)@, stack) && final(color)@[u as int] == BLACK,
        r matches Err(e) ==> e < g@.len(),
        r is Err ==> has_cycle(graph_edge(g@), g@.len() as int),
    decreases white_count(old(color)@),
{
    let ghost entry = color@;
    let ghost inner = stack.push(u as int);
    color.set(u, GRAY);
    proof {
        assert forall|i: int| 0 <= i < color@.len() implies (#[trigger] color@[i] == GRAY <==> inner.contains(i)) by {
            if i == u {
                assert(inner[inner.len() - 1] == u);
            } else {
                if stack.contains(i) {
                    let k = choose|k: int| 0 <= k < stack.len() && stack[k] == i;
                    assert(inner[k] == i);
                }
                if inner.contains(i) {
                    let k = choose|k: int| 0 <= k < inner.len() && inner[k] == i;
                    assert(stack[k] == i);
                }
            }
        }
        assert(is_path(graph_edge(g@), g@.len() as int, inner)) by {
            assert forall|k: int| 0 <= k < inner.len() - 1 implies has_edge(g@, #[trigger] inner[k], inner[k + 1]) by {
                if k < stack.len() - 1 {
                    assert(inner[k] == stack[k] && inner[k + 1] == stack[k + 1]);
                } else {
                    assert(inner[k] == stack.last());
                }
            }
        }
        lemma_white_count_decreases(entry, color@, u as int);
    }
    let n_parents = g[u].len();
    let mut k: usize = 0;
    while k < n_parents
        invariant
            dfs_inv(g@, color@, order@, inner),
            n_parents == g@[u as int]@.len(),
            u < g@.len(),
            k <= n_parents,
            color@[u as int] == GRAY,
            inner == stack.push(u as int),
            entry == old(color)@,
            progress(entry, color@),
            entry[u as int] == WHITE,
            white_count(color@) < white_count(entry),
            forall|j: int| 0 <= j < k ==> color@[#[trigger] g@[u as int]@[j] as int] == BLACK,
        decreases n_parents - k,
    {
        let p = g[u][k];
        proof {
            assert(p < g@.len());
        }
        if color[p] == GRAY {
            proof {
                assert(inner.contains(p as int));
                assert(has_edge(g@, u as int, p as int)) by {
                    assert(g@[u as int]@[k as int] == p);
                }
                lemma_back_edge_cycle(g@, inner, p as int);
            }
            return Err(p);
        }
        if color[p] == WHITE {
            let ghost before = color@;
            proof {
                assert(inner.last() == u);
                assert(has_edge(g@, u as int, p as int)) by {
                    assert(g@[u as int]@[k as int] == p);
                }
            }
            let res = traverse_in_hierarchy(g, p, color, order, Ghost(inner));
            proof {
                lemma_progress_trans(entry, before, color@);
            }
            if let Err(e) = res {
                return Err(e);
            }
            proof {
                lemma_white_count_decreases(before, color@, p as int);
                assert forall|j: int| 0 <= j < k + 1 implies color@[#[trigger] g@[u as int]@[j] as int] == BLACK by {
                    if j < k {
                        assert(before[g@[u as int]@[j] as int] == BLACK);
                    }
                }
            }
        }
        k = k + 1;
    }
    let ghost before_order = order@;
    let n_nodes = g.len();
    color.set(u, BLACK);
    order.push(u);
    proof {
        assert(order@ == before_order.push(u));
        assert(order@[order@.len() - 1] == u);
        assert(!before_order.contains(u)) by {
            assert(color@[u as int] == BLACK);
        }
        assert forall|i: int| 0 <= i < color@.len() implies (#[trigger] color@[i] == GRAY <==> stack.contains(i)) by {
            if stack.contains(i) {
                let m = choose|m: int| 0 <= m < stack.len() && stack[m] == i;
                assert(inner[m] == i);
            }
            if i != u && inner.contains(i) {
                let m = choose|m: int| 0 <= m < inner.len() && inner[m] == i;
                if m < stack.len() {
                    assert(stack[m] == i);
                }
            }
            if i == u && stack.contains(i) {
                let m = choose|m: int| 0 <= m < stack.len() && stack[m] == i;
                assert(inner[m] == i);
                assert(entry[u as int] == WHITE);
            }
        }
        assert forall|i: int| 0 <= i < color@.len() implies (#[trigger] color@[i] == BLACK <==> order@.contains(
            i as usize,
        )) by {
            if order@.contains(i as usize) && i != u {
                let m = choose|m: int| 0 <= m < order@.len() && order@[m] == i as usize;
                assert(n_nodes == g@.len());
                if m == before_order.len() {
                    assert(order@[m] == u);
                }
                assert(before_order[m] == i);
            }
            if i != u && color@[i] == BLACK {
                let m = choose|m: int| 0 <= m < before_order.len() && before_order[m] == i as usize;
                assert(order@[m] == i);
            }
            if i == u {
                assert(order@[order@.len() - 1] == u);
            }
        }
        assert forall|i: int, p: int|
            0 <= i < order@.len() && #[trigger] graph_edge(g@)(order@[i] as int, p) implies exists|j: int|
            0 <= j < i && order@[j] == p by {
            if i < before_order.len() {
                assert(order@[i] == before_order[i]);
                let j = choose|j: int| 0 <= j < i && before_order[j] == p;
                assert(order@[j] == p);
            } else {
                let kk = choose|kk: int| 0 <= kk < g@[u as int]@.len() && g@[u as int]@[kk] == p as usize;
                assert(color@[g@[u as int]@[kk] as int] == BLACK);
                assert(p != u);
                assert(before_order.contains(p as usize));
                let j = choose|j: int| 0 <= j < before_order.len() && before_order[j] == p as usize;
                assert(n_nodes == g@.len());
                assert(order@[j] == before_order[j]);
                assert(order@[j] == p);
            }
        }
    }
    Ok(())
}

/// A dependency order of the graph of parent indices `g`, or a node that lies
/// on a dependency cycle.
pub fn traversal_indices(g: &Vec<Vec<usize>>) -> (r: Result<Vec<usize>, usize>)
    requires
        graph_wf(g@),
    ensures
        r matches Ok(order) ==> is_topological(graph_edge(g@), g@.len() as int, order@),
        r matches Err(e) ==> e < g@.len(),
        r is Err <==> has_cycle(graph_edge(g@), g@.len() as int),
{
    let n = g.len();
    let mut color: Vec<u8> = Vec::new();
    let mut i: usize = 0;
    while i < n
        invariant
            i <= n,
            color@.len() == i,
            forall|j: int| 0 <= j < i ==> #[trigger] color@[j] == WHITE,
        decreases n - i,
    {
        color.push(WHITE);
        i = i + 1;
    }
    let mut order: Vec<usize> = Vec::new();
    let mut u: usize = 0;
    while u < n
        invariant
            n == g@.len(),
            u <= n,
            dfs_inv(g@, color@, order@, Seq::empty()),
            forall|v: int| 0 <= v < u ==> #[trigger] color@[v] == BLACK,
        decreases n - u,
    {
        if color[u] == WHITE {
            let res = traverse_in_hierarchy(g, u, &mut color, &mut order, Ghost(Seq::empty()));
            if let Err(e) = res {
                return Err(e);
            }
        } else {
            proof {
                assert(!Seq::<int>::empty().contains(u as int));
            }
        }
        u = u + 1;
    }
    proof {
        assert forall|v: int| 0 <= v < g@.len() implies #[trigger] order@.contains(v as usize) by {
            assert(color@[v] == BLACK);
        }
        lemma_no_duplicates_cover_len(order@, n as int);
        lemma_topological_acyclic(g@, order@);
    }
    Ok(order)
}

/// A duplicate-free list of indices below `n` that holds each of them has length `n`.
proof fn lemma_no_duplicates_cover_len(order: Seq<usize>, n: int)
    requires
        0 <= n <= usize::MAX,
        order.no_duplicates(),
        forall|i: int| 0 <= i < order.len() ==> #[trigger] order[i] < n,
        forall|v: int| 0 <= v < n ==> #[trigger] order.contains(v as usize),
    ensures
        order.len() == n,
{
    let s = order.map_values(|v: usize| v as int);
    assert(s.no_duplicates()) by {
        assert forall|i: int, j: int| 0 <= i < s.len() && 0 <= j < s.len() && i != j implies s[i] != s[j] by {
            assert(order[i] != order[j]);
        }
    }
    s.unique_seq_to_set();
    assert(s.to_set() =~= vstd::set_lib::set_int_range(0, n)) by {
        assert forall|v: int| vstd::set_lib::set_int_range(0, n).contains(v) implies s.to_set().contains(v) by {
            assert(order.contains(v as usize));
            let k = choose|k: int| 0 <= k < order.len() && order[k] == v as usize;
            assert(s[k] == v);
        }
        assert forall|v: int| s.to_set().contains(v) implies vstd::set_lib::set_int_range(0, n).contains(v) by {
            let k = choose|k: int| 0 <= k < s.len() && s[k] == v;
            assert(order[k] < n);
        }
    }
    vstd::set_lib::lemma_int_range(0, n);
}

/// A graph with a dependency order has no cycle.
proof fn lemma_topological_acyclic(g: Seq<Vec<usize>>, order: Seq<usize>)
    requires
        g.len() <= usize::MAX,
        is_topological(graph_edge(g), g.len() as int, order),
    ensures
        !has_cycle(graph_edge(g), g.len() as int),
{
    if has_cycle(graph_edge(g), g.len() as int) {
        let path = choose|path: Seq<int>| is_cycle(graph_edge(g), g.len() as int, path);
        let pos = |v: int| choose|j: int| 0 <= j < order.len() && order[j] == v as usize;
        // each edge u -> p puts p strictly before u
        assert forall|k: int| 0 <= k < path.len() - 1 implies pos(path[k + 1]) < pos(#[trigger] path[k]) by {
            let u = path[k];
            let p = path[k + 1];
            assert(has_edge(g, u, p));
            assert(order.contains(u as usize));
            let iu = pos(u);
            assert(order[iu] == u as usize);
            assert(has_edge(g, order[iu] as int, p));
            let jp = choose|j: int| 0 <= j < iu && order[j] == p;
            assert(order.contains(p as usize));
            let ip = pos(p);
            assert(order[ip] == p as usize);
            assert(ip == jp) by {
                if ip != jp {
                    assert(order[ip] == order[jp]);
                }
            }
        }
        lemma_positions_decrease(path, pos, path.len() - 1);
    }
}

proof fn lemma_positions_decrease(path: Seq<int>, pos: spec_fn(int) -> int, k: int)
    requires
        1 <= k < path.len(),
        forall|m: int| 0 <= m < path.len() - 1 ==> pos(path[m + 1]) < pos(#[trigger] path[m]),
    ensures
        pos(path[k]) < pos(path[0]),
    decreases k,
{
    if k > 1 {
        lemma_positions_decrease(path, pos, k - 1);
        assert(pos(path[k]) < pos(path[k - 1]));
    }
}

/// Service `u` lists service `p` among its dependencies, by name.
pub open spec fn depends(c: Seq<DependencyComponent>, u: int, p: int) -> bool {
    &&& 0 <= u < c.len()
    &&& 0 <= p < c.len()
    &&& exists|k: int| 0 <= k < c[u].parent@.len() && #[trigger] c[u].parent@[k].name@ == c[p].name@
}

/// The dependency relation of a list of services.
pub open spec fn dependency_edge(c: Seq<DependencyComponent>) -> spec_fn(int, int) -> bool {
    |u: int, p: int| depends(c, u, p)
}

/// No two services share a name.
pub open spec fn names_distinct(c: Seq<DependencyComponent>) -> bool {
    forall|i: int, j: int| 0 <= i < c.len() && 0 <= j < c.len() && i != j ==> c[i].name@ != c[j].name@
}

/// The position of the service called `name`, if there is one.
pub fn index_of(c: &Vec<DependencyComponent>, name: &str) -> (r: Option<usize>)
    ensures
        r matches Some(i) ==> i < c@.len() && c@[i as int].name@ == name@,
        r is None ==> forall|i: int| 0 <= i < c@.len() ==> c@[i].name@ != name@,
{
    let n = c.len();
    let mut i: usize = 0;
    while i < n
        invariant
            n == c@.len(),
            i <= n,
            forall|j: int| 0 <= j < i ==> c@[j].name@ != name@,
        decreases n - i,
    {
        if str_eq(c[i].name.as_str(), name) {
            return Some(i);
        }
        i = i + 1;
    }
    None
}

/// The parent indices of each service; a dependency on a name that no
/// service has is left out.
pub fn resolve_parents(c: &Vec<DependencyComponent>) -> (g: Vec<Vec<usize>>)
    requires
        names_distinct(c@),
    ensures
        g@.len() == c@.len(),
        graph_wf(g@),
        forall|u: int, p: int| 0 <= u < c@.len() && 0 <= p < c@.len() ==> (has_edge(g@, u, p) <==> depends(c@, u, p)),
{
    let n = c.len();
    let mut g: Vec<Vec<usize>> = Vec::new();
    let mut u: usize = 0;
    while u < n
        invariant
            n == c@.len(),
            u <= n,
            names_distinct(c@),
            g@.len() == u,
            forall|v: int, k: int| 0 <= v < u && 0 <= k < g@[v]@.len() ==> (#[trigger] g@[v]@[k]) < n,
            forall|v: int, p: int|
                0 <= v < u && 0 <= p < n ==> (#[trigger] g@[v]@.contains(p as usize) <==> depends(c@, v, p)),
        decreases n - u,
    {
        let parents = &c[u].parent;
        let m = parents.len();
        let mut row: Vec<usize> = Vec::new();
        let mut k: usize = 0;
        while k < m
            invariant
                n == c@.len(),
                u < n,
                m == c@[u as int].parent@.len(),
                parents@ == c@[u as int].parent@,
                k <= m,
                names_distinct(c@),
                forall|j: int| 0 <= j < row@.len() ==> #[trigger] row@[j] < n,
                forall|p: int|
                    0 <= p < n ==> (#[trigger] row@.contains(p as usize) <==> exists|kk: int|
                        0 <= kk < k && #[trigger] c@[u as int].parent@[kk].name@ == c@[p].name@),
            decreases m - k,
        {
            let found = index_of(c, parents[k].name.as_str());
            let ghost before = row@;
            if let Some(i) = found {
                row.push(i);
            }
            proof {
                assert forall|p: int| 0 <= p < n implies (#[trigger] row@.contains(p as usize) <==> exists|kk: int|
                    0 <= kk < k + 1 && #[trigger] c@[u as int].parent@[kk].name@ == c@[p].name@) by {
                    if row@.contains(p as usize) {
                        let j = choose|j: int| 0 <= j < row@.len() && row@[j] == p as usize;
                        if j < before.len() {
                            assert(before[j] == p as usize);
                            assert(before.contains(p as usize));
                        } else {
                            assert(c@[u as int].parent@[k as int].name@ == c@[p].name@);
                        }
                    }
                    if exists|kk: int| 0 <= kk < k + 1 && #[trigger] c@[u as int].parent@[kk].name@ == c@[p].name@ {
                        let kk = choose|kk: int| 0 <= kk < k + 1 && #[trigger] c@[u as int].parent@[kk].name@ == c@[p].name@;
                        if kk < k {
                            assert(before.contains(p as usize));
                            let j = choose|j: int| 0 <= j < before.len() && before[j] == p as usize;
                            assert(row@[j] == p as usize);
                        } else {
                            let i = found->Some_0;
                            if i as int != p {
                                assert(c@[i as int].name@ != c@[p].name@);
                            }
                            assert(row@[row@.len() - 1] == p as usize);
                        }
                    }
                }
            }
            k = k + 1;
        }
        let ghost before_g = g@;
        g.push(row);
        proof {
            assert forall|v: int, p: int| 0 <= v < u + 1 && 0 <= p < n implies (#[trigger] g@[v]@.contains(p as usize)
                <==> depends(c@, v, p)) by {
                if v < u {
                    assert(g@[v] == before_g[v]);
                } else {
                    assert(g@[v] == row);
                }
            }
        }
        u = u + 1;
    }
    g
}

/// A dependency order of the services, as positions in `c`, or the position
/// of a service on a dependency cycle.
pub fn dependency_order(c: &Vec<DependencyComponent>) -> (r: Result<Vec<usize>, usize>)
    requires
        names_distinct(c@),
    ensures
        r matches Ok(order) ==> is_topological(dependency_edge(c@), c@.len() as int, order@),
        r matches Err(u) ==> u < c@.len(),
        r is Err <==> has_cycle(dependency_edge(c@), c@.len() as int),
{
    let g = resolve_parents(c);
    let r = traversal_indices(&g);
    proof {
        assert forall|u: int, p: int| 0 <= u < c@.len() && 0 <= p < c@.len() implies #[trigger] graph_edge(g@)(u, p)
            == #[trigger] dependency_edge(c@)(u, p) by {}
        lemma_same_cycles(graph_edge(g@), dependency_edge(c@), c@.len() as int);
    }
    match r {
        Ok(order) => {
            proof {
                assert forall|i: int, p: int|
                    0 <= i < order@.len() && #[trigger] dependency_edge(c@)(order@[i] as int, p) implies exists|j: int|
                    0 <= j < i && order@[j] == p by {
                    assert(graph_edge(g@)(order@[i] as int, p));
                }
            }
            Ok(order)
        },
        Err(u) => Err(u),
    }
}

/// The names of the services in a dependency order, or the name of a service
/// on a dependency cycle.
pub fn find_containers_traversal_order(c: &Vec<DependencyComponent>) -> (r: Result<Vec<String>, String>)
    requires
        names_distinct(c@),
    ensures
        r matches Ok(names) ==> exists|order: Seq<usize>|
            {
                &&& is_topological(dependency_edge(c@), c@.len() as int, order)
                &&& names@.len() == order.len()
                &&& forall|i: int| 0 <= i < order.len() ==> #[trigger] names@[i]@ == c@[order[i] as int].name@
            },
        r matches Err(name) ==> exists|u: int| 0 <= u < c@.len() && c@[u].name@ == name@,
        r is Err <==> has_cycle(dependency_edge(c@), c@.len() as int),
{
    match dependency_order(c) {
        Ok(order) => {
            let mut names: Vec<String> = Vec::new();
            let mut i: usize = 0;
            while i < order.len()
                invariant
                    is_topological(dependency_edge(c@), c@.len() as int, order@),
                    i <= order@.len(),
                    names@.len() == i,
                    forall|j: int| 0 <= j < i ==> #[trigger] names@[j]@ == c@[order@[j] as int].name@,
                decreases order@.len() - i,
            {
                names.push(c[order[i]].name.clone());
                i = i + 1;
            }
            Ok(names)
        },
        Err(u) => Err(c[u].name.clone()),
    }
}

/// `u` depends on `p` through a chain of one or more dependencies.
pub open spec fn depends_transitively(edge: spec_fn(int, int) -> bool, n: int, u: int, p: int) -> bool {
    exists|path: Seq<int>| #[trigger] is_path(edge, n, path) && path.len() >= 2 && path[0] == u && path.last() == p
}

/// Law: in a dependency order every service comes after everything it depends
/// on, directly or through other services, and each service appears exactly
/// once.
pub proof fn lemma_order_respects_transitive_dependencies(
    edge: spec_fn(int, int) -> bool,
    n: int,
    order: Seq<usize>,
    i: int,
    j: int,
)
    requires
        n <= usize::MAX,
        is_topological(edge, n, order),
        0 <= i < order.len(),
        0 <= j < order.len(),
        depends_transitively(edge, n, order[i] as int, order[j] as int),
    ensures
        j < i,
        forall|a: int, b: int| 0 <= a < order.len() && 0 <= b < order.len() && a != b ==> order[a] != order[b],
{
    let path = choose|path: Seq<int>| #[trigger] is_path(edge, n, path) && path.len() >= 2 && path[0] == order[i] as int
        && path.last() == order[j] as int;
    let pos = |v: int| choose|k: int| 0 <= k < order.len() && order[k] == v as usize;
    assert forall|k: int| 0 <= k < path.len() - 1 implies pos(path[k + 1]) < pos(#[trigger] path[k]) by {
        let u = path[k];
        let p = path[k + 1];
        assert(order.contains(u as usize));
        let iu = pos(u);
        assert(edge(order[iu] as int, p));
        let jp = choose|jj: int| 0 <= jj < iu && order[jj] == p;
        assert(order.contains(p as usize));
        let ip = pos(p);
        if ip != jp {
            assert(order[ip] == order[jp]);
        }
    }
    lemma_positions_decrease(path, pos, path.len() - 1);
    assert(order.contains(order[i]));
    let pi = pos(path[0]);
    let pj = pos(path[path.len() - 1]);
    if pi != i {
        assert(order[pi] == order[i]);
    }
    if pj != j {
        assert(order[pj] == order[j]);
    }
}

} // verus!
