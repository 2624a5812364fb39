//! The data-flow graph: containers (lexical scopes), nodes (variable and
//! parameter bindings) and symmetric edges between nodes.
//!
//! Nodes and containers live in arenas inside [`DataFlow`] and refer to each
//! other by index, so a node stays reachable both through its container's
//! ordered list and through the container's name table while its edge lists
//! keep growing. Everything a contract says is stated over [`GraphView`], the
//! mathematical view of a graph.

use vstd::prelude::*;

use crate::common::bytes_eq;
use crate::common::clone_bytes;

verus! {

/// The kind of a lexical scope.
#[allow(non_camel_case_types)]
#[derive(Clone, Copy, PartialEq, Eq, Structural, Debug)]
pub enum ContainerKind {
    CLASS,
    FUNCTION,
    FILE,
}

/// The kind of a tracked binding.
#[allow(non_camel_case_types)]
#[derive(Clone, Copy, PartialEq, Eq, Structural, Debug)]
pub enum NodeKind {
    PARAMETER,
    VARIABLE,
}

/// How a name is resolved when an edge is inserted: strictly in the scope at
/// hand, or walking outward through the enclosing scopes.
#[derive(Clone, Copy, PartialEq, Eq, Structural, Debug)]
pub enum ResolvePolicy {
    ScopeLocal,
    Lexical,
}

/// One tracked binding. `inbound` and `outbound` hold handles into the node
/// arena; `ast_node` is a non-owning back-reference to the syntax-tree
/// position the binding was created at.
pub struct Node {
    pub name: Vec<u8>,
    pub kind: NodeKind,
    pub inbound: Vec<usize>,
    pub outbound: Vec<usize>,
    pub ast_node: usize,
}

/// One entry of a container's name table.
pub struct TableEntry {
    pub name: Vec<u8>,
    pub node: usize,
}

/// One lexical scope. `containers` holds the handles of the child scopes,
/// `nodes` the handles of the bindings declared directly in this scope, and
/// `nodes_by_name` the name table over exactly those bindings.
pub struct Container {
    pub name: Option<Vec<u8>>,
    pub kind: ContainerKind,
    pub parent: Option<usize>,
    pub containers: Vec<usize>,
    pub nodes: Vec<usize>,
    pub nodes_by_name: Vec<TableEntry>,
}

/// A data-flow graph: the container arena, the node arena, and the handles of
/// the top-level (file) containers.
pub struct DataFlow {
    pub policy: ResolvePolicy,
    pub containers: Vec<Container>,
    pub nodes: Vec<Node>,
    pub roots: Vec<usize>,
}

/// Mathematical view of a [`Node`].
#[verifier::ext_equal]
pub struct NodeView {
    pub name: Seq<u8>,
    pub kind: NodeKind,
    pub inbound: Seq<usize>,
    pub outbound: Seq<usize>,
    pub ast_node: usize,
}

/// Mathematical view of a [`TableEntry`].
#[verifier::ext_equal]
pub struct EntryView {
    pub name: Seq<u8>,
    pub node: usize,
}

/// Mathematical view of a [`Container`].
#[verifier::ext_equal]
pub struct ContainerView {
    pub name: Option<Seq<u8>>,
    pub kind: ContainerKind,
    pub parent: Option<usize>,
    pub containers: Seq<usize>,
    pub nodes: Seq<usize>,
    pub nodes_by_name: Seq<EntryView>,
}

/// Mathematical view of a [`DataFlow`] graph.
#[verifier::ext_equal]
pub struct GraphView {
    pub policy: ResolvePolicy,
    pub containers: Seq<ContainerView>,
    pub nodes: Seq<NodeView>,
    pub roots: Seq<usize>,
}

impl View for Node {
    type V = NodeView;

    open spec fn view(&self) -> NodeView {
        NodeView {
            name: self.name@,
            kind: self.kind,
            inbound: self.inbound@,
            outbound: self.outbound@,
            ast_node: self.ast_node,
        }
    }
}

impl View for TableEntry {
    type V = EntryView;

    open spec fn view(&self) -> EntryView {
        EntryView { name: self.name@, node: self.node }
    }
}

/// View of an optional byte-string.
pub open spec fn opt_bytes(o: Option<Vec<u8>>) -> Option<Seq<u8>> {
    match o {
        Some(v) => Some(v@),
        None => None,
    }
}

impl View for Container {
    type V = ContainerView;

    open spec fn view(&self) -> ContainerView {
        ContainerView {
            name: opt_bytes(self.name),
            kind: self.kind,
            parent: self.parent,
            containers: self.containers@,
            nodes: self.nodes@,
            nodes_by_name: self.nodes_by_name@.map_values(|e: TableEntry| e@),
        }
    }
}

impl View for DataFlow {
    type V = GraphView;

    open spec fn view(&self) -> GraphView {
        GraphView {
            policy: self.policy,
            containers: self.containers@.map_values(|c: Container| c@),
            nodes: self.nodes@.map_values(|n: Node| n@),
            roots: self.roots@,
        }
    }
}

/// The empty graph under a given resolution policy.
pub open spec fn gv_empty(policy: ResolvePolicy) -> GraphView {
    GraphView {
        policy,
        containers: Seq::empty(),
        nodes: Seq::empty(),
        roots: Seq::empty(),
    }
}

/// Structural well-formedness of container `i`: the parent handle points
/// strictly backward, child handles strictly forward (the container tree is
/// acyclic), node handles are valid, and the name table lines up with the
/// node list: same length, same handles in the same order, each entry's name
/// equal to its node's name, and no name twice.
pub open spec fn container_wf(gv: GraphView, i: int) -> bool {
    let c = gv.containers[i];
    &&& (c.parent is Some ==> c.parent.unwrap() < i)
    &&& (forall|k: int|
        0 <= k < c.containers.len() ==> i < #[trigger] c.containers[k] < gv.containers.len())
    &&& c.nodes_by_name.len() == c.nodes.len()
    &&& (forall|k: int| 0 <= k < c.nodes.len() ==> #[trigger] c.nodes[k] < gv.nodes.len())
    &&& (forall|k: int|
        0 <= k < c.nodes.len() ==> (#[trigger] c.nodes_by_name[k]).node == c.nodes[k])
    &&& (forall|k: int|
        0 <= k < c.nodes.len() ==> (#[trigger] c.nodes_by_name[k]).name == gv.nodes[c.nodes[k] as int].name)
    &&& (forall|k1: int, k2: int|
        0 <= k1 < k2 < c.nodes.len() ==> (#[trigger] c.nodes_by_name[k1]).name != (
        #[trigger] c.nodes_by_name[k2]).name)
}

pub open spec fn containers_wf(gv: GraphView) -> bool {
    forall|i: int| 0 <= i < gv.containers.len() ==> #[trigger] container_wf(gv, i)
}

/// Every node handle belongs to at most one container: two different
/// containers hold disjoint node lists.
pub open spec fn ownership_wf(gv: GraphView) -> bool {
    forall|i: int, j: int, k1: int, k2: int|
        0 <= i < gv.containers.len() && 0 <= j < gv.containers.len() && i != j && 0 <= k1
            < gv.containers[i].nodes.len() && 0 <= k2 < gv.containers[j].nodes.len()
            ==> #[trigger] gv.containers[i].nodes[k1] != #[trigger] gv.containers[j].nodes[k2]
}

/// Edge handles of node `h` are valid and never point back at `h` itself.
pub open spec fn node_edges_wf(gv: GraphView, h: int) -> bool {
    let n = gv.nodes[h];
    &&& (forall|k: int|
        0 <= k < n.inbound.len() ==> #[trigger] n.inbound[k] < gv.nodes.len() && n.inbound[k] != h)
    &&& (forall|k: int|
        0 <= k < n.outbound.len() ==> #[trigger] n.outbound[k] < gv.nodes.len() && n.outbound[k]
            != h)
}

/// Node `b` occurs in the outbound list of node `a`.
pub open spec fn has_out(gv: GraphView, a: usize, b: usize) -> bool {
    a < gv.nodes.len() && gv.nodes[a as int].outbound.contains(b)
}

/// Node `b` occurs in the inbound list of node `a`.
pub open spec fn has_in(gv: GraphView, a: usize, b: usize) -> bool {
    a < gv.nodes.len() && gv.nodes[a as int].inbound.contains(b)
}

/// Symmetry at one pair of handles: `b` is recorded as receiving from `a`
/// exactly when `a` is recorded as sending to `b`.
pub open spec fn sym_at(gv: GraphView, a: usize, b: usize) -> bool {
    has_out(gv, a, b) <==> has_in(gv, b, a)
}

/// Edge symmetry: data is recorded as sent exactly where it is recorded as
/// received.
pub open spec fn edges_symmetric(gv: GraphView) -> bool {
    forall|a: usize, b: usize| #[trigger] sym_at(gv, a, b)
}

/// Well-formedness of a whole graph.
pub open spec fn graph_wf(gv: GraphView) -> bool {
    &&& containers_wf(gv)
    &&& ownership_wf(gv)
    &&& (forall|h: int| 0 <= h < gv.nodes.len() ==> #[trigger] node_edges_wf(gv, h))
    &&& edges_symmetric(gv)
    &&& (forall|k: int| 0 <= k < gv.roots.len() ==> #[trigger] gv.roots[k] < gv.containers.len())
}

/// First entry at position `k` or later whose name is `name`.
pub open spec fn tbl_find(t: Seq<EntryView>, name: Seq<u8>, k: int) -> Option<usize>
    decreases t.len() - k,
{
    if !(0 <= k < t.len()) {
        None
    } else if t[k].name == name {
        Some(t[k].node)
    } else {
        tbl_find(t, name, k + 1)
    }
}

/// Lookup of `name` in the table of container `c` alone.
pub open spec fn lookup_in(gv: GraphView, c: int, name: Seq<u8>) -> Option<usize> {
    tbl_find(gv.containers[c].nodes_by_name, name, 0)
}

/// Resolution of `name` starting at container `c` under the graph's policy:
/// the scope's own table, and, under `Lexical` only, the enclosing scopes in
/// turn.
pub open spec fn resolve_spec(gv: GraphView, c: int, name: Seq<u8>) -> Option<usize>
    decreases c,
{
    if !(0 <= c < gv.containers.len()) {
        None
    } else if lookup_in(gv, c, name) is Some {
        lookup_in(gv, c, name)
    } else if gv.policy == ResolvePolicy::Lexical {
        match gv.containers[c].parent {
            Some(p) => if p < c {
                resolve_spec(gv, p as int, name)
            } else {
                None
            },
            None => None,
        }
    } else {
        None
    }
}

/// The graph after appending a fresh, empty container.
pub open spec fn gv_add_container(
    gv: GraphView,
    name: Option<Seq<u8>>,
    kind: ContainerKind,
    parent: Option<usize>,
) -> GraphView {
    GraphView {
        policy: gv.policy,
        containers: gv.containers.push(
            ContainerView {
                name,
                kind,
                parent,
                containers: Seq::empty(),
                nodes: Seq::empty(),
                nodes_by_name: Seq::empty(),
            },
        ),
        nodes: gv.nodes,
        roots: gv.roots,
    }
}

/// The graph after recording container `child` as a child scope of `p`.
pub open spec fn gv_attach(gv: GraphView, p: int, child: usize) -> GraphView {
    let c = gv.containers[p];
    GraphView {
        policy: gv.policy,
        containers: gv.containers.update(
            p,
            ContainerView {
                name: c.name,
                kind: c.kind,
                parent: c.parent,
                containers: c.containers.push(child),
                nodes: c.nodes,
                nodes_by_name: c.nodes_by_name,
            },
        ),
        nodes: gv.nodes,
        roots: gv.roots,
    }
}

/// Idempotent registration: the graph after registering a binding `name` in
/// container `c`. If the name is already in the scope's table the graph is
/// unchanged; otherwise a fresh node with empty edge lists is appended and
/// recorded in the container's list and table.
pub open spec fn gv_add_node(
    gv: GraphView,
    c: int,
    name: Seq<u8>,
    kind: NodeKind,
    ast_node: usize,
) -> GraphView {
    if lookup_in(gv, c, name) is Some {
        gv
    } else {
        let h = gv.nodes.len() as usize;
        let c0 = gv.containers[c];
        GraphView {
            policy: gv.policy,
            containers: gv.containers.update(
                c,
                ContainerView {
                    name: c0.name,
                    kind: c0.kind,
                    parent: c0.parent,
                    containers: c0.containers,
                    nodes: c0.nodes.push(h),
                    nodes_by_name: c0.nodes_by_name.push(EntryView { name, node: h }),
                },
            ),
            nodes: gv.nodes.push(
                NodeView {
                    name,
                    kind,
                    inbound: Seq::empty(),
                    outbound: Seq::empty(),
                    ast_node,
                },
            ),
            roots: gv.roots,
        }
    }
}

/// Node `n` with `d` appended to its outbound list.
pub open spec fn nv_with_out(n: NodeView, d: usize) -> NodeView {
    NodeView {
        name: n.name,
        kind: n.kind,
        inbound: n.inbound,
        outbound: n.outbound.push(d),
        ast_node: n.ast_node,
    }
}

/// Node `n` with `s` appended to its inbound list.
pub open spec fn nv_with_in(n: NodeView, s: usize) -> NodeView {
    NodeView {
        name: n.name,
        kind: n.kind,
        inbound: n.inbound.push(s),
        outbound: n.outbound,
        ast_node: n.ast_node,
    }
}

/// The graph after an attempted flow insertion from `source` to `dest`,
/// resolved at container `c`. A no-op when the two names are equal or when
/// either fails to resolve; otherwise the symmetric edge pair is appended.
pub open spec fn gv_add_flow(gv: GraphView, c: int, source: Seq<u8>, dest: Seq<u8>) -> GraphView {
    if source == dest {
        gv
    } else {
        match (resolve_spec(gv, c, source), resolve_spec(gv, c, dest)) {
            (Some(s), Some(d)) => {
                let ns1 = gv.nodes.update(s as int, nv_with_out(gv.nodes[s as int], d));
                let ns2 = ns1.update(d as int, nv_with_in(ns1[d as int], s));
                GraphView { policy: gv.policy, containers: gv.containers, nodes: ns2, roots: gv.roots }
            },
            _ => gv,
        }
    }
}

/// A find that failed means no entry from `k` on carries the name.
pub proof fn lemma_tbl_find_none(t: Seq<EntryView>, name: Seq<u8>, k: int)
    requires
        0 <= k,
        tbl_find(t, name, k) is None,
    ensures
        forall|j: int| k <= j < t.len() ==> (#[trigger] t[j]).name != name,
    decreases t.len() - k,
{
    if 0 <= k < t.len() {
        lemma_tbl_find_none(t, name, k + 1);
    }
}

/// A find that succeeded names an actual entry: its handle and name stand at
/// some position from `k` on.
pub proof fn lemma_tbl_find_some(t: Seq<EntryView>, name: Seq<u8>, k: int)
    requires
        tbl_find(t, name, k) is Some,
    ensures
        exists|j: int|
            k <= j < t.len() && (#[trigger] t[j]).name == name && t[j].node == tbl_find(
                t,
                name,
                k,
            ).unwrap(),
    decreases t.len() - k,
{
    if 0 <= k < t.len() {
        if t[k].name == name {
        } else {
            lemma_tbl_find_some(t, name, k + 1);
        }
    }
}

/// Finding in a table extended by one entry: an earlier hit is kept, and a
/// miss now hits the new entry exactly when its name matches.
pub proof fn lemma_tbl_find_push(t: Seq<EntryView>, name: Seq<u8>, e: EntryView, k: int)
    requires
        0 <= k <= t.len(),
    ensures
        tbl_find(t, name, k) is Some ==> tbl_find(t.push(e), name, k) == tbl_find(t, name, k),
        tbl_find(t, name, k) is None && e.name == name ==> tbl_find(t.push(e), name, k) == Some(
            e.node,
        ),
        tbl_find(t, name, k) is None && e.name != name ==> tbl_find(t.push(e), name, k) is None,
    decreases t.len() - k,
{
    if k < t.len() {
        assert(t.push(e)[k] == t[k]);
        lemma_tbl_find_push(t, name, e, k + 1);
    } else {
        assert(t.push(e)[k] == e);
        if e.name != name {
            assert(tbl_find(t.push(e), name, k + 1) is None);
        }
    }
}

/// An element pushed onto a sequence is contained in it, and containment of
/// anything else is unchanged.
pub proof fn lemma_push_contains<T>(s: Seq<T>, v: T, x: T)
    ensures
        s.push(v).contains(x) <==> (s.contains(x) || x == v),
{
    assert(s.push(v)[s.len() as int] == v);
    if s.contains(x) {
        let j = choose|j: int| 0 <= j < s.len() && s[j] == x;
        assert(s.push(v)[j] == x);
    }
    if s.push(v).contains(x) && x != v {
        let j = choose|j: int| 0 <= j < s.push(v).len() && s.push(v)[j] == x;
        assert(s[j] == x);
    }
}

/// A resolved handle is a valid node handle, and the node it names carries
/// exactly the name that was resolved.
pub proof fn lemma_resolve_name_matches(gv: GraphView, c: int, name: Seq<u8>)
    requires
        containers_wf(gv),
        resolve_spec(gv, c, name) is Some,
    ensures
        resolve_spec(gv, c, name).unwrap() < gv.nodes.len(),
        gv.nodes[resolve_spec(gv, c, name).unwrap() as int].name == name,
    decreases c,
{
    if 0 <= c < gv.containers.len() {
        if lookup_in(gv, c, name) is Some {
            let t = gv.containers[c].nodes_by_name;
            lemma_tbl_find_some(t, name, 0);
            let j = choose|j: int|
                0 <= j < t.len() && (#[trigger] t[j]).name == name && t[j].node == tbl_find(
                    t,
                    name,
                    0,
                ).unwrap();
            assert(container_wf(gv, c));
        } else {
            match gv.containers[c].parent {
                Some(p) => {
                    lemma_resolve_name_matches(gv, p as int, name);
                },
                None => {},
            }
        }
    }
}

/// Two different names never resolve to the same node handle.
pub proof fn lemma_resolve_distinct(gv: GraphView, c: int, n1: Seq<u8>, n2: Seq<u8>)
    requires
        containers_wf(gv),
        n1 != n2,
        resolve_spec(gv, c, n1) is Some,
        resolve_spec(gv, c, n2) is Some,
    ensures
        resolve_spec(gv, c, n1) != resolve_spec(gv, c, n2),
{
    lemma_resolve_name_matches(gv, c, n1);
    lemma_resolve_name_matches(gv, c, n2);
}

/// Law: a well-formed graph holds no self-loop. In particular an assignment
/// of a name to itself leaves both edge lists without that node.
pub proof fn lemma_no_self_loop(gv: GraphView, h: usize)
    requires
        graph_wf(gv),
        h < gv.nodes.len(),
    ensures
        !gv.nodes[h as int].inbound.contains(h),
        !gv.nodes[h as int].outbound.contains(h),
{
    assert(node_edges_wf(gv, h as int));
    if gv.nodes[h as int].inbound.contains(h) {
        let k = choose|k: int|
            0 <= k < gv.nodes[h as int].inbound.len() && gv.nodes[h as int].inbound[k] == h;
        assert(false);
    }
    if gv.nodes[h as int].outbound.contains(h) {
        let k = choose|k: int|
            0 <= k < gv.nodes[h as int].outbound.len() && gv.nodes[h as int].outbound[k] == h;
        assert(false);
    }
}

/// Law: edges are symmetric. For any two nodes P and Q of a well-formed
/// graph, Q is in P's outbound list exactly when P is in Q's inbound list.
pub proof fn lemma_edge_symmetry(gv: GraphView, p: usize, q: usize)
    requires
        graph_wf(gv),
        p < gv.nodes.len(),
        q < gv.nodes.len(),
    ensures
        gv.nodes[p as int].outbound.contains(q) <==> gv.nodes[q as int].inbound.contains(p),
{
    assert(sym_at(gv, p, q));
}

/// Law: scope isolation. Bindings declared in two different containers are
/// two distinct nodes.
pub proof fn lemma_scope_isolation(gv: GraphView, c1: int, c2: int, k1: int, k2: int)
    requires
        graph_wf(gv),
        0 <= c1 < gv.containers.len(),
        0 <= c2 < gv.containers.len(),
        c1 != c2,
        0 <= k1 < gv.containers[c1].nodes.len(),
        0 <= k2 < gv.containers[c2].nodes.len(),
    ensures
        gv.containers[c1].nodes[k1] != gv.containers[c2].nodes[k2],
{
}

/// Law: name uniqueness per container. Two positions of one container's node
/// list carrying the same name are the same position.
pub proof fn lemma_unique_names(gv: GraphView, c: int, k1: int, k2: int)
    requires
        graph_wf(gv),
        0 <= c < gv.containers.len(),
        0 <= k1 < gv.containers[c].nodes.len(),
        0 <= k2 < gv.containers[c].nodes.len(),
        gv.nodes[gv.containers[c].nodes[k1] as int].name == gv.nodes[gv.containers[c].nodes[k2] as int].name,
    ensures
        k1 == k2,
{
    assert(container_wf(gv, c));
    let c0 = gv.containers[c];
    assert(c0.nodes_by_name[k1].name == gv.nodes[c0.nodes[k1] as int].name);
    assert(c0.nodes_by_name[k2].name == gv.nodes[c0.nodes[k2] as int].name);
    if k1 < k2 {
        assert(c0.nodes_by_name[k1].name != c0.nodes_by_name[k2].name);
    }
    if k2 < k1 {
        assert(c0.nodes_by_name[k2].name != c0.nodes_by_name[k1].name);
    }
}

/// Law: the container tree is acyclic. Every child handle points strictly
/// forward of its parent, so no chain of child links ever returns to a
/// container.
pub proof fn lemma_container_tree_acyclic(gv: GraphView, c: int, k: int)
    requires
        graph_wf(gv),
        0 <= c < gv.containers.len(),
        0 <= k < gv.containers[c].containers.len(),
    ensures
        c < gv.containers[c].containers[k],
{
    assert(container_wf(gv, c));
}

/// Law: registration is idempotent. Registering the same name in the same
/// container a second time, with any kind and position, changes nothing.
pub proof fn lemma_register_idempotent(
    gv: GraphView,
    c: int,
    name: Seq<u8>,
    kind: NodeKind,
    kind2: NodeKind,
    a1: usize,
    a2: usize,
)
    requires
        0 <= c < gv.containers.len(),
    ensures
        gv_add_node(gv_add_node(gv, c, name, kind, a1), c, name, kind2, a2) == gv_add_node(
            gv,
            c,
            name,
            kind,
            a1,
        ),
{
    if lookup_in(gv, c, name) is Some {
    } else {
        let gv1 = gv_add_node(gv, c, name, kind, a1);
        let t = gv.containers[c].nodes_by_name;
        let e = EntryView { name, node: gv.nodes.len() as usize };
        lemma_tbl_find_push(t, name, e, 0);
        assert(gv1.containers[c].nodes_by_name == t.push(e));
        assert(lookup_in(gv1, c, name) is Some);
    }
}

/// Appending a fresh, empty container preserves well-formedness, provided its
/// parent handle is valid.
pub proof fn lemma_add_container_wf(
    gv: GraphView,
    name: Option<Seq<u8>>,
    kind: ContainerKind,
    parent: Option<usize>,
)
    requires
        graph_wf(gv),
        parent is Some ==> parent.unwrap() < gv.containers.len(),
    ensures
        graph_wf(gv_add_container(gv, name, kind, parent)),
{
    let gv1 = gv_add_container(gv, name, kind, parent);
    let n = gv.containers.len() as int;
    assert forall|i: int| 0 <= i < gv1.containers.len() implies #[trigger] container_wf(
        gv1,
        i,
    ) by {
        if i < n {
            assert(container_wf(gv, i));
            assert(gv1.containers[i] == gv.containers[i]);
        } else {
            assert(gv1.containers[i].nodes.len() == 0);
        }
    }
    assert forall|i: int, j: int, k1: int, k2: int|
        0 <= i < gv1.containers.len() && 0 <= j < gv1.containers.len() && i != j && 0 <= k1
            < gv1.containers[i].nodes.len() && 0 <= k2 < gv1.containers[j].nodes.len()
        implies #[trigger] gv1.containers[i].nodes[k1] != #[trigger] gv1.containers[j].nodes[k2] by {
        assert(gv1.containers[i].nodes.len() > 0 ==> i < n && gv1.containers[i] == gv.containers[i]);
        assert(gv1.containers[j].nodes.len() > 0 ==> j < n && gv1.containers[j] == gv.containers[j]);
    }
    assert forall|h: int| 0 <= h < gv1.nodes.len() implies #[trigger] node_edges_wf(gv1, h) by {
        assert(node_edges_wf(gv, h));
    }
    assert forall|a: usize, b: usize| #[trigger] sym_at(gv1, a, b) by {
        assert(sym_at(gv, a, b));
        assert(gv1.nodes == gv.nodes);
    }
    assert(edges_symmetric(gv1));
}

/// Recording a child scope preserves well-formedness, provided the child
/// handle points strictly forward of the parent.
pub proof fn lemma_attach_wf(gv: GraphView, p: int, child: usize)
    requires
        graph_wf(gv),
        0 <= p < child < gv.containers.len(),
    ensures
        graph_wf(gv_attach(gv, p, child)),
{
    let gv1 = gv_attach(gv, p, child);
    assert forall|i: int| 0 <= i < gv1.containers.len() implies #[trigger] container_wf(
        gv1,
        i,
    ) by {
        assert(container_wf(gv, i));
        if i != p {
            assert(gv1.containers[i] == gv.containers[i]);
        } else {
            let c0 = gv.containers[p];
            let c1 = gv1.containers[p];
            assert(c1.containers == c0.containers.push(child));
            assert forall|k: int| 0 <= k < c1.containers.len() implies i < #[trigger] c1.containers[k]
                < gv1.containers.len() by {
                if k < c0.containers.len() {
                    assert(c1.containers[k] == c0.containers[k]);
                } else {
                    assert(c1.containers[k] == child);
                }
            }
        }
    }
    assert forall|i: int, j: int, k1: int, k2: int|
        0 <= i < gv1.containers.len() && 0 <= j < gv1.containers.len() && i != j && 0 <= k1
            < gv1.containers[i].nodes.len() && 0 <= k2 < gv1.containers[j].nodes.len()
        implies #[trigger] gv1.containers[i].nodes[k1] != #[trigger] gv1.containers[j].nodes[k2] by {
        assert(gv1.containers[i].nodes == gv.containers[i].nodes);
        assert(gv1.containers[j].nodes == gv.containers[j].nodes);
    }
    assert forall|h: int| 0 <= h < gv1.nodes.len() implies #[trigger] node_edges_wf(gv1, h) by {
        assert(node_edges_wf(gv, h));
    }
    assert forall|a: usize, b: usize| #[trigger] sym_at(gv1, a, b) by {
        assert(sym_at(gv, a, b));
        assert(gv1.nodes == gv.nodes);
    }
    assert(edges_symmetric(gv1));
}

/// Registering a binding preserves well-formedness.
pub proof fn lemma_add_node_wf(
    gv: GraphView,
    c: int,
    name: Seq<u8>,
    kind: NodeKind,
    ast_node: usize,
)
    requires
        graph_wf(gv),
        0 <= c < gv.containers.len(),
        gv.nodes.len() <= usize::MAX,
    ensures
        graph_wf(gv_add_node(gv, c, name, kind, ast_node)),
{
    if lookup_in(gv, c, name) is Some {
    } else {
        let gv1 = gv_add_node(gv, c, name, kind, ast_node);
        let h = gv.nodes.len() as usize;
        let hi = gv.nodes.len() as int;
        let c0 = gv.containers[c];
        let c1 = gv1.containers[c];
        lemma_tbl_find_none(c0.nodes_by_name, name, 0);
        assert(c1.nodes == c0.nodes.push(h));
        assert(c1.nodes_by_name == c0.nodes_by_name.push(EntryView { name, node: h }));
        assert forall|i: int| 0 <= i < gv1.containers.len() implies #[trigger] container_wf(
            gv1,
            i,
        ) by {
            assert(container_wf(gv, i));
            if i != c {
                let ci = gv.containers[i];
                assert(gv1.containers[i] == ci);
                assert forall|k: int| 0 <= k < ci.nodes.len() implies (
                #[trigger] ci.nodes_by_name[k]).name == gv1.nodes[ci.nodes[k] as int].name by {
                    assert(ci.nodes[k] < gv.nodes.len());
                    assert(gv1.nodes[ci.nodes[k] as int] == gv.nodes[ci.nodes[k] as int]);
                }
            } else {
                assert forall|k: int| 0 <= k < c1.nodes.len() implies #[trigger] c1.nodes[k]
                    < gv1.nodes.len() by {
                    if k < c0.nodes.len() {
                        assert(c1.nodes[k] == c0.nodes[k]);
                    } else {
                        assert(c1.nodes[k] == h);
                    }
                }
                assert forall|k: int| 0 <= k < c1.nodes.len() implies (
                #[trigger] c1.nodes_by_name[k]).node == c1.nodes[k] by {
                    if k < c0.nodes.len() {
                        assert(c1.nodes[k] == c0.nodes[k]);
                        assert(c1.nodes_by_name[k] == c0.nodes_by_name[k]);
                    }
                }
                assert forall|k: int| 0 <= k < c1.nodes.len() implies (
                #[trigger] c1.nodes_by_name[k]).name == gv1.nodes[c1.nodes[k] as int].name by {
                    if k < c0.nodes.len() {
                        assert(c1.nodes[k] == c0.nodes[k]);
                        assert(c1.nodes_by_name[k] == c0.nodes_by_name[k]);
                        assert(c0.nodes[k] < gv.nodes.len());
                        assert(gv1.nodes[c0.nodes[k] as int] == gv.nodes[c0.nodes[k] as int]);
                    } else {
                        assert(c1.nodes[k] == h);
                        assert(gv1.nodes[hi].name == name);
                    }
                }
                assert forall|k1: int, k2: int| 0 <= k1 < k2 < c1.nodes.len() implies (
                #[trigger] c1.nodes_by_name[k1]).name != (#[trigger] c1.nodes_by_name[k2]).name by {
                    if k2 < c0.nodes.len() {
                        assert(c1.nodes_by_name[k1] == c0.nodes_by_name[k1]);
                        assert(c1.nodes_by_name[k2] == c0.nodes_by_name[k2]);
                    } else {
                        assert(c1.nodes_by_name[k1] == c0.nodes_by_name[k1]);
                        assert(c0.nodes_by_name[k1].name != name);
                    }
                }
            }
        }
        assert forall|i: int, j: int, k1: int, k2: int|
            0 <= i < gv1.containers.len() && 0 <= j < gv1.containers.len() && i != j && 0 <= k1
                < gv1.containers[i].nodes.len() && 0 <= k2 < gv1.containers[j].nodes.len()
            implies #[trigger] gv1.containers[i].nodes[k1] != #[trigger] gv1.containers[j].nodes[k2] by {
            assert(container_wf(gv, i));
            assert(container_wf(gv, j));
            if i == c && k1 == c0.nodes.len() {
                assert(gv1.containers[i].nodes[k1] == h);
                assert(gv1.containers[j] == gv.containers[j]);
                assert(gv.containers[j].nodes[k2] < gv.nodes.len());
            } else if j == c && k2 == c0.nodes.len() {
                assert(gv1.containers[j].nodes[k2] == h);
                assert(gv1.containers[i].nodes[k1] == gv.containers[i].nodes[k1]);
                assert(gv.containers[i].nodes[k1] < gv.nodes.len());
            } else {
                assert(gv1.containers[i].nodes[k1] == gv.containers[i].nodes[k1]);
                assert(gv1.containers[j].nodes[k2] == gv.containers[j].nodes[k2]);
            }
        }
        assert forall|hh: int| 0 <= hh < gv1.nodes.len() implies #[trigger] node_edges_wf(
            gv1,
            hh,
        ) by {
            if hh < hi {
                assert(node_edges_wf(gv, hh));
                assert(gv1.nodes[hh] == gv.nodes[hh]);
            } else {
                assert(gv1.nodes[hh].inbound.len() == 0);
                assert(gv1.nodes[hh].outbound.len() == 0);
            }
        }
        assert forall|x: int, v: usize|
            0 <= x < gv1.nodes.len() && (gv1.nodes[x].inbound.contains(v)
                || gv1.nodes[x].outbound.contains(v)) implies v < gv.nodes.len() by {
            if x < hi {
                assert(gv1.nodes[x] == gv.nodes[x]);
                assert(node_edges_wf(gv, x));
                if gv.nodes[x].inbound.contains(v) {
                    let k = choose|k: int|
                        0 <= k < gv.nodes[x].inbound.len() && gv.nodes[x].inbound[k] == v;
                }
                if gv.nodes[x].outbound.contains(v) {
                    let k = choose|k: int|
                        0 <= k < gv.nodes[x].outbound.len() && gv.nodes[x].outbound[k] == v;
                }
            } else {
                assert(gv1.nodes[x].inbound.len() == 0);
                assert(gv1.nodes[x].outbound.len() == 0);
            }
        }
        assert forall|a: usize, b: usize| #[trigger] sym_at(gv1, a, b) by {
            if a < hi && b < hi {
                assert(sym_at(gv, a, b));
                assert(gv1.nodes[a as int] == gv.nodes[a as int]);
                assert(gv1.nodes[b as int] == gv.nodes[b as int]);
            } else {
                assert(!has_out(gv1, a, b));
                assert(!has_in(gv1, b, a));
            }
        }
        assert(edges_symmetric(gv1));
    }
}

/// Inserting a flow preserves well-formedness.
pub proof fn lemma_add_flow_wf(gv: GraphView, c: int, source: Seq<u8>, dest: Seq<u8>)
    requires
        graph_wf(gv),
    ensures
        graph_wf(gv_add_flow(gv, c, source, dest)),
{
    if source == dest {
    } else {
        match (resolve_spec(gv, c, source), resolve_spec(gv, c, dest)) {
            (Some(s), Some(d)) => {
                lemma_resolve_name_matches(gv, c, source);
                lemma_resolve_name_matches(gv, c, dest);
                lemma_resolve_distinct(gv, c, source, dest);
                assert(s != d);
                let gv1 = gv_add_flow(gv, c, source, dest);
                let si = s as int;
                let di = d as int;
                assert(gv1.nodes[si] == nv_with_out(gv.nodes[si], d));
                assert(gv1.nodes[di] == nv_with_in(gv.nodes[di], s));
                assert forall|x: int|
                    0 <= x < gv.nodes.len() && x != si && x != di implies gv1.nodes[x]
                    == gv.nodes[x] by {}
                assert forall|x: int| 0 <= x < gv.nodes.len() implies #[trigger] gv1.nodes[x].name
                    == gv.nodes[x].name by {}
                assert forall|i: int| 0 <= i < gv1.containers.len() implies
                    #[trigger] container_wf(gv1, i) by {
                    assert(container_wf(gv, i));
                    let ci = gv.containers[i];
                    assert(gv1.containers[i] == ci);
                    assert forall|k: int| 0 <= k < ci.nodes.len() implies (
                    #[trigger] ci.nodes_by_name[k]).name == gv1.nodes[ci.nodes[k] as int].name by {
                        assert(ci.nodes[k] < gv.nodes.len());
                        assert(gv1.nodes[ci.nodes[k] as int].name == gv.nodes[ci.nodes[k] as int].name);
                    }
                }
                assert forall|i: int, j: int, k1: int, k2: int|
                    0 <= i < gv1.containers.len() && 0 <= j < gv1.containers.len() && i != j && 0
                        <= k1 < gv1.containers[i].nodes.len() && 0 <= k2
                        < gv1.containers[j].nodes.len()
                    implies #[trigger] gv1.containers[i].nodes[k1]
                        != #[trigger] gv1.containers[j].nodes[k2] by {
                    assert(gv1.containers[i] == gv.containers[i]);
                    assert(gv1.containers[j] == gv.containers[j]);
                    assert(gv.containers[i].nodes[k1] != gv.containers[j].nodes[k2]);
                }
                assert forall|hh: int| 0 <= hh < gv1.nodes.len() implies #[trigger] node_edges_wf(
                    gv1,
                    hh,
                ) by {
                    assert(node_edges_wf(gv, hh));
                    if hh == si {
                        assert forall|k: int| 0 <= k < gv1.nodes[si].outbound.len() implies
                            #[trigger] gv1.nodes[si].outbound[k] < gv1.nodes.len()
                                && gv1.nodes[si].outbound[k] != si by {
                            if k < gv.nodes[si].outbound.len() {
                                assert(gv1.nodes[si].outbound[k] == gv.nodes[si].outbound[k]);
                            } else {
                                assert(gv1.nodes[si].outbound[k] == d);
                            }
                        }
                    } else if hh == di {
                        assert forall|k: int| 0 <= k < gv1.nodes[di].inbound.len() implies
                            #[trigger] gv1.nodes[di].inbound[k] < gv1.nodes.len()
                                && gv1.nodes[di].inbound[k] != di by {
                            if k < gv.nodes[di].inbound.len() {
                                assert(gv1.nodes[di].inbound[k] == gv.nodes[di].inbound[k]);
                            } else {
                                assert(gv1.nodes[di].inbound[k] == s);
                            }
                        }
                    } else {
                        assert(gv1.nodes[hh] == gv.nodes[hh]);
                    }
                }
                assert forall|a: usize, b: usize| #[trigger] sym_at(gv1, a, b) by {
                    assert(sym_at(gv, a, b));
                    lemma_push_contains(gv.nodes[si].outbound, d, b);
                    lemma_push_contains(gv.nodes[di].inbound, s, a);
                    if a < gv.nodes.len() && a != s && a != d {
                        assert(gv1.nodes[a as int] == gv.nodes[a as int]);
                    }
                    if b < gv.nodes.len() && b != s && b != d {
                        assert(gv1.nodes[b as int] == gv.nodes[b as int]);
                    }
                }
                assert(edges_symmetric(gv1));
            },
            _ => {},
        }
    }
}

/// `b` begins with `a`: nothing of `a` was removed or overwritten.
pub open spec fn seq_extends<T>(a: Seq<T>, b: Seq<T>) -> bool {
    a.len() <= b.len() && (forall|k: int| 0 <= k < a.len() ==> a[k] == #[trigger] b[k])
}

/// Append-only growth of a graph: the policy and the root list are kept;
/// containers and nodes are only ever added, and an existing container or
/// node keeps its identity (name, kind, parent, origin) while its lists only
/// grow at the end. This is the lifecycle the walker promises: a node is
/// created once and afterward mutated only by edge insertion.
pub open spec fn graph_extends(gv0: GraphView, gv1: GraphView) -> bool {
    &&& gv1.policy == gv0.policy
    &&& gv1.roots == gv0.roots
    &&& gv0.containers.len() <= gv1.containers.len()
    &&& (forall|i: int|
        0 <= i < gv0.containers.len() ==> {
            let c0 = #[trigger] gv0.containers[i];
            let c1 = gv1.containers[i];
            &&& c1.name == c0.name
            &&& c1.kind == c0.kind
            &&& c1.parent == c0.parent
            &&& seq_extends(c0.containers, c1.containers)
            &&& seq_extends(c0.nodes, c1.nodes)
            &&& seq_extends(c0.nodes_by_name, c1.nodes_by_name)
        })
    &&& gv0.nodes.len() <= gv1.nodes.len()
    &&& (forall|h: int|
        0 <= h < gv0.nodes.len() ==> {
            let n0 = #[trigger] gv0.nodes[h];
            let n1 = gv1.nodes[h];
            &&& n1.name == n0.name
            &&& n1.kind == n0.kind
            &&& n1.ast_node == n0.ast_node
            &&& seq_extends(n0.inbound, n1.inbound)
            &&& seq_extends(n0.outbound, n1.outbound)
        })
}

/// Append-only growth is reflexive.
pub proof fn lemma_extends_refl(gv: GraphView)
    ensures
        graph_extends(gv, gv),
{
}

/// Append-only growth composes.
pub proof fn lemma_extends_trans(gv0: GraphView, gv1: GraphView, gv2: GraphView)
    requires
        graph_extends(gv0, gv1),
        graph_extends(gv1, gv2),
    ensures
        graph_extends(gv0, gv2),
{
    assert forall|i: int| 0 <= i < gv0.containers.len() implies {
        let c0 = #[trigger] gv0.containers[i];
        let c2 = gv2.containers[i];
        &&& c2.name == c0.name
        &&& c2.kind == c0.kind
        &&& c2.parent == c0.parent
        &&& seq_extends(c0.containers, c2.containers)
        &&& seq_extends(c0.nodes, c2.nodes)
        &&& seq_extends(c0.nodes_by_name, c2.nodes_by_name)
    } by {
        let c1 = gv1.containers[i];
        assert(seq_extends(gv0.containers[i].containers, c1.containers));
    }
    assert forall|h: int| 0 <= h < gv0.nodes.len() implies {
        let n0 = #[trigger] gv0.nodes[h];
        let n2 = gv2.nodes[h];
        &&& n2.name == n0.name
        &&& n2.kind == n0.kind
        &&& n2.ast_node == n0.ast_node
        &&& seq_extends(n0.inbound, n2.inbound)
        &&& seq_extends(n0.outbound, n2.outbound)
    } by {
        let n1 = gv1.nodes[h];
        assert(seq_extends(gv0.nodes[h].inbound, n1.inbound));
    }
}

/// Appending a container is append-only growth.
pub proof fn lemma_add_container_extends(
    gv: GraphView,
    name: Option<Seq<u8>>,
    kind: ContainerKind,
    parent: Option<usize>,
)
    ensures
        graph_extends(gv, gv_add_container(gv, name, kind, parent)),
{
    let gv1 = gv_add_container(gv, name, kind, parent);
    assert forall|i: int| 0 <= i < gv.containers.len() implies gv1.containers[i]
        == gv.containers[i] by {}
}

/// Recording a child scope is append-only growth.
pub proof fn lemma_attach_extends(gv: GraphView, p: int, child: usize)
    requires
        0 <= p < gv.containers.len(),
    ensures
        graph_extends(gv, gv_attach(gv, p, child)),
{
    let gv1 = gv_attach(gv, p, child);
    assert forall|i: int| 0 <= i < gv.containers.len() && i != p implies gv1.containers[i]
        == gv.containers[i] by {}
    assert(seq_extends(gv.containers[p].containers, gv1.containers[p].containers));
}

/// Registering a binding is append-only growth.
pub proof fn lemma_add_node_extends(
    gv: GraphView,
    c: int,
    name: Seq<u8>,
    kind: NodeKind,
    ast_node: usize,
)
    requires
        0 <= c < gv.containers.len(),
    ensures
        graph_extends(gv, gv_add_node(gv, c, name, kind, ast_node)),
{
    let gv1 = gv_add_node(gv, c, name, kind, ast_node);
    if lookup_in(gv, c, name) is Some {
    } else {
        assert forall|i: int| 0 <= i < gv.containers.len() && i != c implies gv1.containers[i]
            == gv.containers[i] by {}
        assert(seq_extends(gv.containers[c].nodes, gv1.containers[c].nodes));
        assert(seq_extends(gv.containers[c].nodes_by_name, gv1.containers[c].nodes_by_name));
        assert forall|h: int| 0 <= h < gv.nodes.len() implies gv1.nodes[h] == gv.nodes[h] by {}
    }
}

/// Inserting a flow is append-only growth.
pub proof fn lemma_add_flow_extends(gv: GraphView, c: int, source: Seq<u8>, dest: Seq<u8>)
    requires
        graph_wf(gv),
    ensures
        graph_extends(gv, gv_add_flow(gv, c, source, dest)),
{
    if source == dest {
    } else {
        match (resolve_spec(gv, c, source), resolve_spec(gv, c, dest)) {
            (Some(s), Some(d)) => {
                lemma_resolve_name_matches(gv, c, source);
                lemma_resolve_name_matches(gv, c, dest);
                let gv1 = gv_add_flow(gv, c, source, dest);
                assert forall|h: int| 0 <= h < gv.nodes.len() implies {
                    let n0 = #[trigger] gv.nodes[h];
                    let n1 = gv1.nodes[h];
                    &&& n1.name == n0.name
                    &&& n1.kind == n0.kind
                    &&& n1.ast_node == n0.ast_node
                    &&& seq_extends(n0.inbound, n1.inbound)
                    &&& seq_extends(n0.outbound, n1.outbound)
                } by {
                    if h == s as int {
                        assert(seq_extends(gv.nodes[h].outbound, gv.nodes[h].outbound.push(d)));
                    }
                    if h == d as int {
                        assert(seq_extends(gv.nodes[h].inbound, gv.nodes[h].inbound.push(s)));
                    }
                }
            },
            _ => {},
        }
    }
}

/// The graph after recording container `r` as a top-level (file) scope.
pub open spec fn gv_add_root(gv: GraphView, r: usize) -> GraphView {
    GraphView {
        policy: gv.policy,
        containers: gv.containers,
        nodes: gv.nodes,
        roots: gv.roots.push(r),
    }
}

/// Law: an unresolved name makes flow insertion a no-op, as does a
/// self-assignment.
pub proof fn lemma_unresolved_no_flow(gv: GraphView, c: int, source: Seq<u8>, dest: Seq<u8>)
    requires
        source == dest || resolve_spec(gv, c, source) is None || resolve_spec(gv, c, dest) is None,
    ensures
        gv_add_flow(gv, c, source, dest) == gv,
{
}

/// A throwaway value swapped into the arena while one container is edited.
fn empty_container() -> Container {
    Container {
        name: None,
        kind: ContainerKind::FILE,
        parent: None,
        containers: Vec::new(),
        nodes: Vec::new(),
        nodes_by_name: Vec::new(),
    }
}

/// A throwaway value swapped into the arena while one node is edited.
fn empty_node() -> Node {
    Node {
        name: Vec::new(),
        kind: NodeKind::VARIABLE,
        inbound: Vec::new(),
        outbound: Vec::new(),
        ast_node: 0,
    }
}

/// Linear search of a container's own name table.
fn lookup_local(cont: &Container, name: &Vec<u8>) -> (r: Option<usize>)
    ensures
        r == tbl_find(cont@.nodes_by_name, name@, 0),
{
    let n = cont.nodes_by_name.len();
    let mut k: usize = 0;
    while k < n
        invariant
            n == cont@.nodes_by_name.len(),
            k <= n,
            tbl_find(cont@.nodes_by_name, name@, 0) == tbl_find(
                cont@.nodes_by_name,
                name@,
                k as int,
            ),
        decreases n - k,
    {
        proof {
            assert(cont@.nodes_by_name[k as int] == cont.nodes_by_name@[k as int]@);
        }
        if bytes_eq(&cont.nodes_by_name[k].name, name) {
            return Some(cont.nodes_by_name[k].node);
        }
        k = k + 1;
    }
    None
}

impl DataFlow {
    /// The empty graph under `policy`.
    pub fn new(policy: ResolvePolicy) -> (g: DataFlow)
        ensures
            g@ == gv_empty(policy),
            graph_wf(g@),
    {
        let g = DataFlow {
            policy,
            containers: Vec::new(),
            nodes: Vec::new(),
            roots: Vec::new(),
        };
        proof {
            assert(g@ =~~= gv_empty(policy));
        }
        g
    }

    /// Appends a fresh, empty container to the arena and returns its handle.
    pub fn add_container(
        &mut self,
        name: Option<Vec<u8>>,
        kind: ContainerKind,
        parent: Option<usize>,
    ) -> (h: usize)
        requires
            graph_wf(old(self)@),
            parent is Some ==> parent.unwrap() < old(self)@.containers.len(),
        ensures
            graph_wf(final(self)@),
            final(self)@ == gv_add_container(old(self)@, opt_bytes(name), kind, parent),
            graph_extends(old(self)@, final(self)@),
            h == old(self)@.containers.len(),
    {
        let h = self.containers.len();
        let cont = Container {
            name,
            kind,
            parent,
            containers: Vec::new(),
            nodes: Vec::new(),
            nodes_by_name: Vec::new(),
        };
        let ghost cv = cont@;
        self.containers.push(cont);
        proof {
            assert(cv.nodes_by_name =~= Seq::<EntryView>::empty());
            assert(self@.containers =~= old(self)@.containers.push(cv));
            assert(self@ =~~= gv_add_container(old(self)@, opt_bytes(name), kind, parent));
            lemma_add_container_wf(old(self)@, opt_bytes(name), kind, parent);
            lemma_add_container_extends(old(self)@, opt_bytes(name), kind, parent);
        }
        h
    }

    /// Records container `child` as a child scope of `p`.
    pub fn attach_container(&mut self, p: usize, child: usize)
        requires
            graph_wf(old(self)@),
            p < child,
            (child as int) < old(self)@.containers.len(),
        ensures
            graph_wf(final(self)@),
            final(self)@ == gv_attach(old(self)@, p as int, child),
            graph_extends(old(self)@, final(self)@),
    {
        let mut tmp = empty_container();
        self.containers.set_and_swap(p, &mut tmp);
        tmp.containers.push(child);
        self.containers.set_and_swap(p, &mut tmp);
        proof {
            assert(self@ =~~= gv_attach(old(self)@, p as int, child));
            lemma_attach_wf(old(self)@, p as int, child);
            lemma_attach_extends(old(self)@, p as int, child);
        }
    }

    /// Idempotent registration of a binding named `name` in container `c`: a
    /// no-op when the name is already in the scope's table, otherwise a fresh
    /// node with empty edge lists, appended to the container's list and table.
    pub fn register_node(&mut self, c: usize, name: &Vec<u8>, kind: NodeKind, ast_node: usize)
        requires
            graph_wf(old(self)@),
            (c as int) < old(self)@.containers.len(),
        ensures
            graph_wf(final(self)@),
            final(self)@ == gv_add_node(old(self)@, c as int, name@, kind, ast_node),
            graph_extends(old(self)@, final(self)@),
    {
        let found = lookup_local(&self.containers[c], name);
        proof {
            assert(self@.containers[c as int] == self.containers@[c as int]@);
        }
        if found.is_some() {
            proof {
                lemma_extends_refl(self@);
            }
            return;
        }
        let h = self.nodes.len();
        let n = Node {
            name: clone_bytes(name),
            kind,
            inbound: Vec::new(),
            outbound: Vec::new(),
            ast_node,
        };
        let ghost nv = n@;
        self.nodes.push(n);
        let mut tmp = empty_container();
        self.containers.set_and_swap(c, &mut tmp);
        tmp.nodes.push(h);
        tmp.nodes_by_name.push(TableEntry { name: clone_bytes(name), node: h });
        self.containers.set_and_swap(c, &mut tmp);
        proof {
            assert(old(self)@.nodes.len() as usize == h);
            assert(self@.nodes =~= old(self)@.nodes.push(nv));
            assert(self@ =~~= gv_add_node(old(self)@, c as int, name@, kind, ast_node));
            lemma_add_node_wf(old(self)@, c as int, name@, kind, ast_node);
            lemma_add_node_extends(old(self)@, c as int, name@, kind, ast_node);
        }
    }

    /// Resolves `name` starting at container `c` under the graph's policy.
    pub fn resolve_name(&self, c: usize, name: &Vec<u8>) -> (r: Option<usize>)
        requires
            graph_wf(self@),
            (c as int) < self@.containers.len(),
        ensures
            r == resolve_spec(self@, c as int, name@),
            r is Some ==> (r.unwrap() as int) < self@.nodes.len(),
        decreases c,
    {
        let local = lookup_local(&self.containers[c], name);
        proof {
            assert(self@.containers[c as int] == self.containers@[c as int]@);
        }
        if local.is_some() {
            proof {
                lemma_resolve_name_matches(self@, c as int, name@);
            }
            return local;
        }
        match self.policy {
            ResolvePolicy::Lexical => {
                match self.containers[c].parent {
                    Some(p) => {
                        if p < c {
                            self.resolve_name(p, name)
                        } else {
                            None
                        }
                    },
                    None => None,
                }
            },
            ResolvePolicy::ScopeLocal => None,
        }
    }

    /// Attempted flow insertion from `source` to `dest`, both resolved at
    /// container `c`: a silent no-op when the names are equal or when either
    /// is missing from the scopes the policy consults, otherwise the
    /// insertion of the symmetric edge pair.
    pub fn add_flow(&mut self, c: usize, source: &Vec<u8>, dest: &Vec<u8>)
        requires
            graph_wf(old(self)@),
            (c as int) < old(self)@.containers.len(),
        ensures
            graph_wf(final(self)@),
            final(self)@ == gv_add_flow(old(self)@, c as int, source@, dest@),
            source@ == dest@ ==> final(self)@ == old(self)@,
            resolve_spec(old(self)@, c as int, source@) is None ==> final(self)@ == old(self)@,
            resolve_spec(old(self)@, c as int, dest@) is None ==> final(self)@ == old(self)@,
            graph_extends(old(self)@, final(self)@),
    {
        if bytes_eq(source, dest) {
            proof {
                lemma_extends_refl(self@);
            }
            return;
        }
        let s_opt = self.resolve_name(c, source);
        let d_opt = self.resolve_name(c, dest);
        match (s_opt, d_opt) {
            (Some(s), Some(d)) => {
                let mut tmp = empty_node();
                self.nodes.set_and_swap(s, &mut tmp);
                tmp.outbound.push(d);
                self.nodes.set_and_swap(s, &mut tmp);
                let ghost ns1 = old(self)@.nodes.update(
                    s as int,
                    nv_with_out(old(self)@.nodes[s as int], d),
                );
                proof {
                    assert(self@.nodes =~= ns1);
                }
                let mut tmp2 = empty_node();
                self.nodes.set_and_swap(d, &mut tmp2);
                tmp2.inbound.push(s);
                self.nodes.set_and_swap(d, &mut tmp2);
                proof {
                    assert(self@.nodes =~= ns1.update(d as int, nv_with_in(ns1[d as int], s)));
                    assert(self@ =~~= gv_add_flow(old(self)@, c as int, source@, dest@));
                    lemma_add_flow_wf(old(self)@, c as int, source@, dest@);
                    lemma_add_flow_extends(old(self)@, c as int, source@, dest@);
                }
            },
            _ => {
                proof {
                    lemma_extends_refl(self@);
                }
            },
        }
    }

    /// Records container `r` as a top-level (file) scope of the graph.
    pub fn add_root(&mut self, r: usize)
        requires
            graph_wf(old(self)@),
            (r as int) < old(self)@.containers.len(),
        ensures
            graph_wf(final(self)@),
            final(self)@ == gv_add_root(old(self)@, r),
    {
        self.roots.push(r);
        proof {
            let gv0 = old(self)@;
            let gv1 = self@;
            assert(gv1 =~~= gv_add_root(gv0, r));
            assert forall|i: int| 0 <= i < gv1.containers.len() implies #[trigger] container_wf(
                gv1,
                i,
            ) by {
                assert(container_wf(gv0, i));
                assert(gv1.containers[i] == gv0.containers[i]);
            }
            assert forall|h: int| 0 <= h < gv1.nodes.len() implies #[trigger] node_edges_wf(
                gv1,
                h,
            ) by {
                assert(node_edges_wf(gv0, h));
            }
            assert forall|a: usize, b: usize| #[trigger] sym_at(gv1, a, b) by {
                assert(sym_at(gv0, a, b));
                assert(gv1.nodes == gv0.nodes);
            }
            assert forall|i: int, j: int, k1: int, k2: int|
                0 <= i < gv1.containers.len() && 0 <= j < gv1.containers.len() && i != j && 0 <= k1
                    < gv1.containers[i].nodes.len() && 0 <= k2 < gv1.containers[j].nodes.len()
                implies #[trigger] gv1.containers[i].nodes[k1] != #[trigger] gv1.containers[j].nodes[k2] by {
                assert(gv1.containers[i].nodes == gv0.containers[i].nodes);
                assert(gv1.containers[j].nodes == gv0.containers[j].nodes);
            }
            assert forall|k: int| 0 <= k < gv1.roots.len() implies #[trigger] gv1.roots[k]
                < gv1.containers.len() by {
                if k < gv0.roots.len() {
                    assert(gv1.roots[k] == gv0.roots[k]);
                } else {
                    assert(gv1.roots[k] == r);
                }
            }
        }
    }
}

} // verus!
