//! Coordinate systems joined by transformations, with cheapest-route queries.
use vstd::prelude::*;
use crate::identity::Identity;
use crate::stage::TransformShape;

verus! {

/// Cost of an edge that is not given one.
pub const DEFAULT_COST: u64 = 1;

/// Sums of edge costs stay below this bound, so that path searches cannot overflow.
pub const COST_BUDGET: u64 = 0x7fff_ffff_ffff_ffff;

/// `(source, target, cost)` of each edge.
pub type CostedArc = (usize, usize, u64);

/// Some edge leads from `a` to `b`.
pub open spec fn connected(links: Seq<CostedArc>, a: usize, b: usize) -> bool {
    exists|e: int| 0 <= e < links.len() && #[trigger] links[e].0 == a && links[e].1 == b
}

/// Some edge leads from the `i`-th node of `p` to the next.
pub open spec fn step_connected(links: Seq<CostedArc>, p: Seq<usize>, i: int) -> bool {
    connected(links, p[i], p[i + 1])
}

/// `p` is a walk from `start` to `goal` along edges.
pub open spec fn is_path(links: Seq<CostedArc>, start: usize, goal: usize, p: Seq<usize>) -> bool {
    &&& p.len() >= 1
    &&& p[0] == start
    &&& p.last() == goal
    &&& forall|i: int| 0 <= i < p.len() - 1 ==> #[trigger] step_connected(links, p, i)
}

/// The smallest cost of an edge from `a` to `b`.
pub open spec fn hop_cost(links: Seq<CostedArc>, a: usize, b: usize) -> nat
    decreases links.len(),
{
    if links.len() == 0 {
        0
    } else {
        let rest = hop_cost(links.drop_last(), a, b);
        let l = links.last();
        if l.0 == a && l.1 == b && (!connected(links.drop_last(), a, b) || (l.2 as nat) < rest) {
            l.2 as nat
        } else {
            rest
        }
    }
}

/// Cost of a walk, taking the cheapest edge for each step.
pub open spec fn path_cost(links: Seq<CostedArc>, p: Seq<usize>) -> nat
    decreases p.len(),
{
    if p.len() < 2 {
        0
    } else {
        path_cost(links, p.drop_last()) + hop_cost(links, p[p.len() - 2], p.last())
    }
}

/// `p` is a walk from `start` to `goal` that no other walk undercuts.
pub open spec fn is_cheapest_path(links: Seq<CostedArc>, start: usize, goal: usize, p: Seq<usize>) -> bool {
    &&& is_path(links, start, goal, p)
    &&& forall|q: Seq<usize>| is_path(links, start, goal, q) ==> path_cost(links, p) <= path_cost(links, q)
}

/// Sum of the edge costs.
pub open spec fn total_cost(links: Seq<CostedArc>) -> nat
    decreases links.len(),
{
    if links.len() == 0 {
        0
    } else {
        total_cost(links.drop_last()) + links.last().2 as nat
    }
}

/// Relies on petgraph's `astar`, with a zero estimate (Dijkstra's search), on a
/// graph built from the edge list by `Graph::from_edges`: the nodes of a cheapest
/// walk from `start` to `goal`, or `None` where `goal` cannot be reached.
/// The cost bound keeps its additions within `u64`.
#[verifier::external_body]
fn cheapest_path(links: &Vec<CostedArc>, start: usize, goal: usize) -> (r: Option<Vec<usize>>)
    requires
        total_cost(links@) <= COST_BUDGET,
        start != goal,
    ensures
        r is Some ==> is_cheapest_path(links@, start, goal, r->0@),
        r is None ==> forall|q: Seq<usize>| !is_path(links@, start, goal, q),
{
    let g = petgraph::graph::DiGraph::<(), u64, usize>::from_edges(links.iter().copied());
    let found = petgraph::algo::astar(
        &g,
        petgraph::graph::NodeIndex::new(start),
        |n| n.index() == goal,
        |e| *e.weight(),
        |_| 0u64,
    );
    found.map(|(_, path)| path.into_iter().map(|n| n.index()).collect())
}

/// Why an edge was refused.
#[derive(Debug, Clone, Copy, PartialEq, Eq)]
pub enum GraphError {
    /// The coordinate system is already known with another dimensionality.
    DimensionMismatch { existing: usize, found: usize },
    /// The graph's total edge cost would leave the supported range.
    CostOverflow,
}

/// What an edge does to points.
#[derive(Debug, Clone)]
pub enum EdgeTransform<X> {
    /// Leaves points unchanged; such edges cost nothing.
    Identity(Identity),
    Given(X),
}

/// A transformation with the cost of following it.
#[derive(Debug, Clone)]
pub struct Edge<X> {
    pub transform: EdgeTransform<X>,
    pub cost: u64,
}

impl<X> Edge<X> {
    pub fn new_cost(transform: X, cost: u64) -> (r: Self)
        ensures
            r.transform == EdgeTransform::Given(transform),
            r.cost == cost,
    {
        Edge { transform: EdgeTransform::Given(transform), cost }
    }

    pub fn new(transform: X) -> (r: Self)
        ensures
            r.transform == EdgeTransform::Given(transform),
            r.cost == DEFAULT_COST,
    {
        Edge::new_cost(transform, DEFAULT_COST)
    }
}

/// An edge with its endpoints.
#[derive(Debug, Clone)]
pub struct Link<X> {
    pub src: usize,
    pub tgt: usize,
    pub edge: Edge<X>,
}

/// A coordinate system: its label and dimensionality.
#[derive(Debug, Clone)]
pub struct NodeInfo {
    pub label: String,
    pub ndim: usize,
}

/// A way from one coordinate system to another: the edges whose transformations
/// are applied in turn, identities left out. With no edges it is the identity of
/// `ndim` dimensions.
#[derive(Debug, Clone)]
pub struct Route {
    pub ndim: usize,
    pub edges: Vec<usize>,
}

impl Route {
    pub fn copy(&self) -> (r: Route)
        ensures
            r.ndim == self.ndim,
            r.edges@ == self.edges@,
    {
        Route { ndim: self.ndim, edges: crate::buffers::slice_to_vec(self.edges.as_slice()) }
    }
}

fn copy_answer(r: &Option<Route>) -> (c: Option<Route>)
    ensures
        c is Some <==> r is Some,
        c is Some ==> c->0.ndim == r->0.ndim && c->0.edges@ == r->0.edges@,
{
    match r {
        Some(route) => Some(route.copy()),
        None => None,
    }
}

struct CacheEntry {
    src: usize,
    tgt: usize,
    route: Option<Route>,
}

/// Named coordinate systems joined by directed, costed transformations.
pub struct TransformGraph<X> {
    nodes: Vec<NodeInfo>,
    links: Vec<Link<X>>,
    total: u64,
    path_cache: Vec<CacheEntry>,
}

pub open spec fn arcs_of<X>(links: Seq<Link<X>>) -> Seq<CostedArc> {
    links.map_values(|l: Link<X>| (l.src, l.tgt, l.edge.cost))
}

/// Edge `e` is a cheapest edge from `a` to `b`, and the latest added among those.
pub open spec fn is_best_edge<X>(links: Seq<Link<X>>, a: usize, b: usize, e: int) -> bool {
    &&& 0 <= e < links.len()
    &&& links[e].src == a
    &&& links[e].tgt == b
    &&& forall|f: int| 0 <= f < links.len() && #[trigger] links[f].src == a && links[f].tgt == b
        ==> links[e].edge.cost <= links[f].edge.cost
    &&& forall|f: int| e < f < links.len() && #[trigger] links[f].src == a && links[f].tgt == b
        ==> links[e].edge.cost < links[f].edge.cost
}

pub open spec fn best_edge_spec<X>(links: Seq<Link<X>>, a: usize, b: usize) -> int {
    choose|e: int| is_best_edge(links, a, b, e)
}

pub proof fn lemma_best_edge_unique<X>(links: Seq<Link<X>>, a: usize, b: usize, e1: int, e2: int)
    requires
        is_best_edge(links, a, b, e1),
        is_best_edge(links, a, b, e2),
    ensures
        e1 == e2,
{
    if e1 < e2 {
        assert(links[e1].edge.cost < links[e2].edge.cost);
    } else if e2 < e1 {
        assert(links[e2].edge.cost < links[e1].edge.cost);
    }
}

pub open spec fn is_identity_edge<X>(links: Seq<Link<X>>, e: int) -> bool {
    links[e].edge.transform is Identity
}

/// The best edge of each step of `p` whose transformation is not an identity.
pub open spec fn route_edges<X>(links: Seq<Link<X>>, p: Seq<usize>) -> Seq<usize>
    decreases p.len(),
{
    if p.len() < 2 {
        Seq::empty()
    } else {
        let e = best_edge_spec(links, p[p.len() - 2], p.last());
        let rest = route_edges(links, p.drop_last());
        if is_identity_edge(links, e) {
            rest
        } else {
            rest.push(e as usize)
        }
    }
}

/// The edges that `add_edge` appends for a transformation from node `u` to node `v`:
/// the reverse edge first, where one is added, then the forward edge. An identity is
/// stored as such and costs nothing.
pub open spec fn new_links<X>(
    u: usize,
    v: usize,
    transform: X,
    shape: TransformShape,
    inverse: Option<X>,
    cost: u64,
    with_inverse: bool,
) -> Seq<Link<X>> {
    let c: u64 = if shape.is_identity { 0 } else { cost };
    let fwd_t = if shape.is_identity {
        EdgeTransform::Identity(Identity(shape.input_ndim))
    } else {
        EdgeTransform::Given(transform)
    };
    let fwd = Link { src: u, tgt: v, edge: Edge { transform: fwd_t, cost: c } };
    if with_inverse && shape.is_identity {
        seq![Link { src: v, tgt: u, edge: Edge { transform: EdgeTransform::Identity(Identity(shape.input_ndim)), cost: 0 } }, fwd]
    } else if with_inverse && inverse is Some {
        seq![Link { src: v, tgt: u, edge: Edge { transform: EdgeTransform::Given(inverse->0), cost: c } }, fwd]
    } else {
        seq![fwd]
    }
}

/// The total cost of the edges that `add_edge` appends.
pub open spec fn added_cost(shape: TransformShape, has_inverse: bool, cost: u64, with_inverse: bool) -> nat {
    let c: nat = if shape.is_identity { 0 } else { cost as nat };
    if with_inverse && (shape.is_identity || has_inverse) {
        2 * c
    } else {
        c
    }
}

proof fn lemma_total_push<X>(links: Seq<Link<X>>, l: Link<X>)
    ensures
        arcs_of(links.push(l)) == arcs_of(links).push((l.src, l.tgt, l.edge.cost)),
        total_cost(arcs_of(links.push(l))) == total_cost(arcs_of(links)) + l.edge.cost,
{
    assert(arcs_of(links.push(l)) =~= arcs_of(links).push((l.src, l.tgt, l.edge.cost)));
    assert(arcs_of(links.push(l)).drop_last() =~= arcs_of(links));
}

/// Edge `j` of `edges` ends in a system of the dimensionality that edge `j + 1` starts in.
pub open spec fn edges_meet<X>(nodes: Seq<NodeInfo>, links: Seq<Link<X>>, edges: Seq<usize>, j: int) -> bool {
    nodes[links[edges[j] as int].tgt as int].ndim == nodes[links[edges[j + 1] as int].src as int].ndim
}

/// Consecutive edges meet in systems of one dimensionality: the first starts in
/// dimensionality `from`, the last ends in `to`; with no edges, `from == to`.
pub open spec fn route_chains<X>(nodes: Seq<NodeInfo>, links: Seq<Link<X>>, edges: Seq<usize>, from: usize, to: usize) -> bool {
    if edges.len() == 0 {
        from == to
    } else {
        &&& nodes[links[edges[0] as int].src as int].ndim == from
        &&& nodes[links[edges.last() as int].tgt as int].ndim == to
        &&& forall|j: int| 0 <= j < edges.len() - 1 ==> #[trigger] edges_meet(nodes, links, edges, j)
    }
}

impl<X> TransformGraph<X> {
    pub closed spec fn spec_nodes(&self) -> Seq<NodeInfo> {
        self.nodes@
    }

    pub closed spec fn spec_links(&self) -> Seq<Link<X>> {
        self.links@
    }

    pub closed spec fn spec_cache_len(&self) -> nat {
        self.path_cache@.len()
    }

    pub open spec fn arcs(&self) -> Seq<CostedArc> {
        arcs_of(self.spec_links())
    }

    /// The node carrying `label`, if any.
    pub open spec fn node_of(&self, label: Seq<char>) -> Option<int> {
        if exists|i: int| 0 <= i < self.spec_nodes().len() && (#[trigger] self.spec_nodes()[i]).label@ == label {
            Some(choose|i: int| 0 <= i < self.spec_nodes().len() && (#[trigger] self.spec_nodes()[i]).label@ == label)
        } else {
            None
        }
    }

    pub open spec fn labels_unique(&self) -> bool {
        forall|i: int, j: int| 0 <= i < j < self.spec_nodes().len() ==> (#[trigger] self.spec_nodes()[i]).label@
            != (#[trigger] self.spec_nodes()[j]).label@
    }

    pub open spec fn links_wf(&self) -> bool {
        forall|e: int| 0 <= e < self.spec_links().len() ==> {
            let l = #[trigger] self.spec_links()[e];
            &&& l.src < self.spec_nodes().len()
            &&& l.tgt < self.spec_nodes().len()
            &&& l.src != l.tgt
            &&& (l.edge.transform matches EdgeTransform::Identity(id) ==> id.0 == self.spec_nodes()[l.src as int].ndim
                && id.0 == self.spec_nodes()[l.tgt as int].ndim && l.edge.cost == 0)
        }
    }

    /// What a query from node `u` to another node `v` yields.
    pub open spec fn answers_ids(&self, u: int, v: int, r: Option<Route>) -> bool {
        &&& self.answers_route(u, v, r)
        &&& r is Some ==> route_chains(
            self.spec_nodes(),
            self.spec_links(),
            r->0.edges@,
            self.spec_nodes()[u].ndim,
            self.spec_nodes()[v].ndim,
        )
    }

    /// Which route a query from node `u` to another node `v` yields.
    pub open spec fn answers_route(&self, u: int, v: int, r: Option<Route>) -> bool {
        let links = self.spec_links();
        let (a, b) = (u as usize, v as usize);
        if connected(self.arcs(), a, b) {
            let e = best_edge_spec(links, a, b);
            &&& r is Some
            &&& r->0.ndim == self.spec_nodes()[u].ndim
            &&& r->0.edges@ == if is_identity_edge(links, e) {
                Seq::<usize>::empty()
            } else {
                seq![e as usize]
            }
        } else if exists|q: Seq<usize>| is_path(self.arcs(), a, b, q) {
            &&& r is Some
            &&& r->0.ndim == self.spec_nodes()[u].ndim
            &&& exists|p: Seq<usize>| is_cheapest_path(self.arcs(), a, b, p) && r->0.edges@ == route_edges(links, p)
        } else {
            r is None
        }
    }

    /// What a query from `from` to `to` yields.
    pub open spec fn answers(&self, from: Seq<char>, to: Seq<char>, r: Option<Route>) -> bool {
        match self.node_of(from) {
            None => r is None,
            Some(u) => if from == to {
                r is Some && r->0.ndim == self.spec_nodes()[u].ndim && r->0.edges@.len() == 0
            } else {
                match self.node_of(to) {
                    None => r is None,
                    Some(v) => self.answers_ids(u, v, r),
                }
            },
        }
    }

    pub closed spec fn cache_wf(&self) -> bool {
        forall|k: int| 0 <= k < self.path_cache@.len() ==> {
            let c = #[trigger] self.path_cache@[k];
            &&& c.src < self.nodes@.len()
            &&& c.tgt < self.nodes@.len()
            &&& c.src != c.tgt
            &&& self.answers_ids(c.src as int, c.tgt as int, c.route)
        }
    }

    pub closed spec fn spec_total(&self) -> nat {
        self.total as nat
    }

    /// The graph's own invariants, the cache aside.
    pub open spec fn graph_wf(&self) -> bool {
        &&& self.labels_unique()
        &&& self.links_wf()
        &&& self.spec_total() == total_cost(self.arcs())
        &&& total_cost(self.arcs()) <= COST_BUDGET
    }

    pub open spec fn wf(&self) -> bool {
        self.graph_wf() && self.cache_wf()
    }

    pub fn new() -> (r: Self)
        ensures
            r.wf(),
            r.spec_nodes().len() == 0,
            r.spec_links().len() == 0,
    {
        let r = TransformGraph { nodes: Vec::new(), links: Vec::new(), total: 0, path_cache: Vec::new() };
        proof {
            assert(arcs_of(r.links@) =~= Seq::<CostedArc>::empty());
        }
        r
    }

    pub fn nodes(&self) -> (r: &Vec<NodeInfo>)
        ensures
            r@ == self.spec_nodes(),
    {
        &self.nodes
    }

    pub fn links(&self) -> (r: &Vec<Link<X>>)
        ensures
            r@ == self.spec_links(),
    {
        &self.links
    }

    /// The edge at position `e`.
    pub fn edge(&self, e: usize) -> (r: &Edge<X>)
        requires
            e < self.spec_links().len(),
        ensures
            *r == self.spec_links()[e as int].edge,
    {
        &self.links[e].edge
    }

    /// The index of the node labelled `label`.
    pub fn node_index(&self, label: &str) -> (r: Option<usize>)
        requires
            self.labels_unique(),
        ensures
            r is Some <==> self.node_of(label@) is Some,
            r is Some ==> r->0 == self.node_of(label@)->0 && r->0 < self.spec_nodes().len(),
    {
        let key = label.to_owned();
        let mut i: usize = 0;
        while i < self.nodes.len()
            invariant
                i <= self.nodes.len(),
                self.labels_unique(),
                key@ == label@,
                forall|j: int| 0 <= j < i ==> (#[trigger] self.nodes@[j]).label@ != label@,
            decreases self.nodes.len() - i,
        {
            if self.nodes[i].label == key {
                proof {
                    assert(self.spec_nodes()[i as int].label@ == label@);
                    let j = choose|j: int| 0 <= j < self.spec_nodes().len() && (#[trigger] self.spec_nodes()[j]).label@ == label@;
                    if j != i {
                        if j < i {
                            assert(self.spec_nodes()[j].label@ != self.spec_nodes()[i as int].label@);
                        } else {
                            assert(0 <= i < j < self.spec_nodes().len());
                            assert(self.spec_nodes()[i as int].label@ != self.spec_nodes()[j].label@);
                        }
                    }
                }
                return Some(i);
            }
            i = i + 1;
        }
        None
    }

    /// The latest added of the cheapest edges from `a` to `b`.
    fn best_edge(&self, a: usize, b: usize) -> (r: Option<usize>)
        ensures
            r is Some <==> connected(self.arcs(), a, b),
            r is Some ==> is_best_edge(self.spec_links(), a, b, r->0 as int),
    {
        let mut best: Option<usize> = None;
        let mut e: usize = 0;
        while e < self.links.len()
            invariant
                e <= self.links.len(),
                best is None ==> forall|f: int| 0 <= f < e ==> !(#[trigger] self.links@[f].src == a && self.links@[f].tgt == b),
                best is Some ==> is_best_edge(self.links@.subrange(0, e as int), a, b, best->0 as int),
            decreases self.links.len() - e,
        {
            let ghost pre = self.links@.subrange(0, e as int);
            let ghost post = self.links@.subrange(0, e + 1);
            proof {
                assert(post =~= pre.push(self.links@[e as int]));
            }
            if self.links[e].src == a && self.links[e].tgt == b {
                let take = match best {
                    None => true,
                    Some(bi) => self.links[e].edge.cost <= self.links[bi].edge.cost,
                };
                if take {
                    best = Some(e);
                    proof {
                        assert forall|f: int| 0 <= f < post.len() && #[trigger] post[f].src == a && post[f].tgt == b
                            implies post[e as int].edge.cost <= post[f].edge.cost by {
                            if f < e {
                                assert(pre[f] == post[f]);
                            }
                        }
                    }
                } else {
                    proof {
                        let bi = best->0 as int;
                        assert forall|f: int| 0 <= f < post.len() && #[trigger] post[f].src == a && post[f].tgt == b
                            implies post[bi].edge.cost <= post[f].edge.cost by {
                            if f < e {
                                assert(pre[f] == post[f]);
                            }
                        }
                        assert forall|f: int| bi < f < post.len() && #[trigger] post[f].src == a && post[f].tgt == b
                            implies post[bi].edge.cost < post[f].edge.cost by {
                            if f < e {
                                assert(pre[f] == post[f]);
                            }
                        }
                    }
                }
            } else {
                proof {
                    if best is Some {
                        let bi = best->0 as int;
                        assert forall|f: int| 0 <= f < post.len() && #[trigger] post[f].src == a && post[f].tgt == b
                            implies post[bi].edge.cost <= post[f].edge.cost by {
                            assert(f < e);
                            assert(pre[f] == post[f]);
                        }
                        assert forall|f: int| bi < f < post.len() && #[trigger] post[f].src == a && post[f].tgt == b
                            implies post[bi].edge.cost < post[f].edge.cost by {
                            assert(f < e);
                            assert(pre[f] == post[f]);
                        }
                    }
                }
            }
            e = e + 1;
        }
        proof {
            assert(self.links@.subrange(0, self.links.len() as int) =~= self.links@);
            let arcs = self.arcs();
            if best is Some {
                let bi = best->0 as int;
                assert(arcs[bi].0 == a && arcs[bi].1 == b);
            } else {
                assert forall|f: int| 0 <= f < arcs.len() implies !(#[trigger] arcs[f].0 == a && arcs[f].1 == b) by {
                    assert(!(self.links@[f].src == a && self.links@[f].tgt == b));
                }
            }
        }
        best
    }

    proof fn lemma_node_of(&self, l: Seq<char>, i: int)
        requires
            self.labels_unique(),
            0 <= i < self.spec_nodes().len(),
            self.spec_nodes()[i].label@ == l,
        ensures
            self.node_of(l) == Some(i),
    {
        let j = choose|j: int| 0 <= j < self.spec_nodes().len() && (#[trigger] self.spec_nodes()[j]).label@ == l;
        if j < i {
            assert(self.spec_nodes()[j].label@ != self.spec_nodes()[i].label@);
        } else if i < j {
            assert(self.spec_nodes()[i].label@ != self.spec_nodes()[j].label@);
        }
    }

    /// The node labelled `label`, added with dimensionality `ndim` where it is new.
    fn ensure_coord_system(&mut self, label: &str, ndim: usize) -> (r: Result<usize, GraphError>)
        requires
            old(self).graph_wf(),
            old(self).spec_cache_len() == 0,
        ensures
            final(self).graph_wf(),
            final(self).spec_cache_len() == 0,
            final(self).spec_links() == old(self).spec_links(),
            r is Err <==> old(self).node_of(label@) is Some && old(self).spec_nodes()[old(self).node_of(
                label@,
            )->0].ndim != ndim,
            r is Err ==> r->Err_0 == (GraphError::DimensionMismatch {
                existing: old(self).spec_nodes()[old(self).node_of(label@)->0].ndim,
                found: ndim,
            }) && *final(self) == *old(self),
            r is Ok ==> final(self).node_of(label@) == Some(r->Ok_0 as int) && final(self).spec_nodes()[r->Ok_0 as int].ndim
                == ndim,
            r is Ok ==> old(self).node_of(label@) is Some ==> final(self).spec_nodes() == old(self).spec_nodes(),
            forall|l: Seq<char>| l != label@ ==> #[trigger] final(self).node_of(l) == old(self).node_of(l),
            forall|i: int| 0 <= i < old(self).spec_nodes().len() ==> #[trigger] final(self).spec_nodes()[i]
                == old(self).spec_nodes()[i],
            old(self).spec_nodes().len() <= final(self).spec_nodes().len(),
    {
        match self.node_index(label) {
            Some(i) => {
                let existing = self.nodes[i].ndim;
                if existing != ndim {
                    return Err(GraphError::DimensionMismatch { existing, found: ndim });
                }
                Ok(i)
            },
            None => {
                let ghost before = *self;
                let i = self.nodes.len();
                self.nodes.push(NodeInfo { label: label.to_owned(), ndim });
                proof {
                    assert forall|a: int, b: int| 0 <= a < b < self.spec_nodes().len() implies (#[trigger] self.spec_nodes()[a]).label@
                        != (#[trigger] self.spec_nodes()[b]).label@ by {
                        if b == i {
                            assert(before.spec_nodes()[a].label@ != label@);
                        } else {
                            assert(before.spec_nodes()[a].label@ != before.spec_nodes()[b].label@);
                        }
                    }
                    self.lemma_node_of(label@, i as int);
                    assert forall|l: Seq<char>| l != label@ implies #[trigger] self.node_of(l) == before.node_of(l) by {
                        if before.node_of(l) is Some {
                            let k = before.node_of(l)->0;
                            assert(before.spec_nodes()[k].label@ == l);
                            self.lemma_node_of(l, k);
                        } else {
                            if exists|j: int| 0 <= j < self.spec_nodes().len() && (#[trigger] self.spec_nodes()[j]).label@ == l {
                                let j = choose|j: int| 0 <= j < self.spec_nodes().len() && (#[trigger] self.spec_nodes()[j]).label@ == l;
                                assert(j != i);
                                assert(before.spec_nodes()[j].label@ == l);
                            }
                        }
                    }
                }
                Ok(i)
            },
        }
    }

    /// Whether `add_edge` refuses the shape because a known coordinate system has
    /// another dimensionality.
    pub open spec fn dims_clash(&self, src: Seq<char>, tgt: Seq<char>, shape: TransformShape) -> bool {
        ||| (self.node_of(src) is Some && self.spec_nodes()[self.node_of(src)->0].ndim != shape.input_ndim)
        ||| (src != tgt && self.node_of(tgt) is Some && self.spec_nodes()[self.node_of(tgt)->0].ndim
            != shape.output_ndim)
    }

    /// Adds an edge from `src` to `tgt`, registering either label where it is new
    /// with the dimensionality the transformation gives it. An identity is stored as
    /// such, at no cost. With `with_inverse`, the reverse edge is added as well where
    /// the transformation is an identity or `inverse` holds its inverse. An edge from
    /// a system to itself is not stored. Every cached route is dropped.
    ///
    /// Returns whether a reverse edge was added (`true` for an edge to itself).
    pub fn add_edge(
        &mut self,
        src: &str,
        tgt: &str,
        transform: X,
        shape: TransformShape,
        inverse: Option<X>,
        cost: u64,
        with_inverse: bool,
    ) -> (r: Result<bool, GraphError>)
        requires
            old(self).wf(),
            shape.wf(),
        ensures
            final(self).wf(),
            final(self).spec_cache_len() == 0,
            r is Err ==> final(self).spec_links() == old(self).spec_links(),
            r matches Err(GraphError::DimensionMismatch { .. }) <==> old(self).dims_clash(src@, tgt@, shape),
            r matches Err(GraphError::CostOverflow) <==> !old(self).dims_clash(src@, tgt@, shape) && src@ != tgt@
                && total_cost(old(self).arcs()) + added_cost(shape, inverse is Some, cost, with_inverse) > COST_BUDGET,
            r is Ok ==> final(self).node_of(src@) is Some && final(self).spec_nodes()[final(self).node_of(src@)->0].ndim
                == shape.input_ndim,
            r is Ok && src@ != tgt@ ==> final(self).node_of(tgt@) is Some
                && final(self).spec_nodes()[final(self).node_of(tgt@)->0].ndim == shape.output_ndim,
            r is Ok ==> r->Ok_0 == (src@ == tgt@ || (with_inverse && (shape.is_identity || inverse is Some))),
            r is Ok && src@ == tgt@ ==> final(self).spec_links() == old(self).spec_links(),
            r is Ok && src@ != tgt@ ==> final(self).spec_links() == old(self).spec_links() + new_links(
                final(self).node_of(src@)->0 as usize,
                final(self).node_of(tgt@)->0 as usize,
                transform,
                shape,
                inverse,
                cost,
                with_inverse,
            ),
    {
        self.path_cache = Vec::new();
        proof {
            assert(self.cache_wf());
        }
        let same = src.to_owned() == tgt.to_owned();
        if same {
            return match self.ensure_coord_system(src, shape.input_ndim) {
                Ok(_) => Ok(true),
                Err(e) => Err(e),
            };
        }
        let ghost before = *self;
        let u = match self.ensure_coord_system(src, shape.input_ndim) {
            Ok(u) => u,
            Err(e) => {
                return Err(e);
            },
        };
        let ghost mid = *self;
        let v = match self.ensure_coord_system(tgt, shape.output_ndim) {
            Ok(v) => v,
            Err(e) => {
                return Err(e);
            },
        };
        proof {
            assert(self.node_of(src@) == mid.node_of(src@));
            assert(u != v) by {
                assert(self.spec_nodes()[u as int].label@ == src@);
                assert(self.spec_nodes()[v as int].label@ == tgt@);
            }
        }
        let (fwd_t, c) = if shape.is_identity {
            (EdgeTransform::Identity(Identity::new(shape.input_ndim)), 0u64)
        } else {
            (EdgeTransform::Given(transform), cost)
        };
        let rev: Option<Link<X>> = if with_inverse && shape.is_identity {
            Some(Link { src: v, tgt: u, edge: Edge { transform: EdgeTransform::Identity(Identity::new(shape.input_ndim)), cost: 0 } })
        } else if with_inverse {
            match inverse {
                Some(x) => Some(Link { src: v, tgt: u, edge: Edge { transform: EdgeTransform::Given(x), cost: c } }),
                None => None,
            }
        } else {
            None
        };
        let added_inverse = rev.is_some();
        let added: u64 = if added_inverse { c } else { 0 };
        let ghost links0 = self.links@;
        let ghost fresh_links = new_links(u, v, transform, shape, inverse, cost, with_inverse);
        proof {
            let f = fresh_links;
            assert(total_cost(arcs_of(f)) == added + c) by {
                let a = arcs_of(f);
                assert(a.len() == f.len());
                assert(a[a.len() - 1].2 == c);
                assert(total_cost(a) == total_cost(a.drop_last()) + c);
                if added_inverse {
                    assert(f.len() == 2);
                    assert(a[0].2 == c);
                    let a1 = a.drop_last();
                    assert(a1.drop_last() =~= Seq::<CostedArc>::empty());
                    assert(total_cost(a1) == total_cost(a1.drop_last()) + c);
                } else {
                    assert(f.len() == 1);
                    assert(a.drop_last() =~= Seq::<CostedArc>::empty());
                }
            }
        }
        if self.total > COST_BUDGET || c > COST_BUDGET - self.total || added > COST_BUDGET - self.total - c {
            return Err(GraphError::CostOverflow);
        }
        match rev {
            Some(l) => {
                proof {
                    lemma_total_push(self.links@, l);
                }
                self.links.push(l);
                self.total = self.total + c;
            },
            None => {},
        }
        let fwd = Link { src: u, tgt: v, edge: Edge { transform: fwd_t, cost: c } };
        proof {
            lemma_total_push(self.links@, fwd);
        }
        self.links.push(fwd);
        self.total = self.total + c;
        proof {
            assert(self.links@ =~= links0 + fresh_links);
            assert(self.cache_wf());
            assert(self.spec_nodes()[u as int] == mid.spec_nodes()[u as int]);
            assert(self.node_of(src@) == Some(u as int));
            assert(self.node_of(tgt@) == Some(v as int));
        }
        Ok(added_inverse)
    }

    fn is_identity_link(&self, e: usize) -> (r: bool)
        requires
            e < self.spec_links().len(),
        ensures
            r == is_identity_edge(self.spec_links(), e as int),
    {
        match &self.links[e].edge.transform {
            EdgeTransform::Identity(_) => true,
            EdgeTransform::Given(_) => false,
        }
    }

    /// `(source, target, cost)` of each edge, in order.
    fn arc_list(&self) -> (r: Vec<CostedArc>)
        ensures
            r@ == self.arcs(),
    {
        let mut r: Vec<CostedArc> = Vec::with_capacity(self.links.len());
        let mut e: usize = 0;
        while e < self.links.len()
            invariant
                e <= self.links.len(),
                r@ == arcs_of(self.links@.subrange(0, e as int)),
            decreases self.links.len() - e,
        {
            let l = &self.links[e];
            r.push((l.src, l.tgt, l.edge.cost));
            e = e + 1;
            proof {
                assert(r@ =~= arcs_of(self.links@.subrange(0, e as int)));
            }
        }
        proof {
            assert(self.links@.subrange(0, self.links.len() as int) =~= self.links@);
        }
        r
    }

    fn cache_lookup(&self, u: usize, v: usize) -> (r: Option<Option<Route>>)
        requires
            self.cache_wf(),
        ensures
            r is Some ==> self.answers_ids(u as int, v as int, r->0),
    {
        let mut k: usize = 0;
        while k < self.path_cache.len()
            invariant
                k <= self.path_cache.len(),
                self.cache_wf(),
            decreases self.path_cache.len() - k,
        {
            let c = &self.path_cache[k];
            if c.src == u && c.tgt == v {
                let ans = copy_answer(&c.route);
                proof {
                    assert(self.answers_ids(u as int, v as int, c.route));
                }
                return Some(ans);
            }
            k = k + 1;
        }
        None
    }

    fn cache_insert(&mut self, u: usize, v: usize, route: &Option<Route>)
        requires
            old(self).wf(),
            u < old(self).spec_nodes().len(),
            v < old(self).spec_nodes().len(),
            u != v,
            old(self).answers_ids(u as int, v as int, *route),
        ensures
            final(self).wf(),
            final(self).spec_nodes() == old(self).spec_nodes(),
            final(self).spec_links() == old(self).spec_links(),
    {
        let entry = CacheEntry { src: u, tgt: v, route: copy_answer(route) };
        proof {
            assert(self.answers_ids(u as int, v as int, entry.route));
        }
        self.path_cache.push(entry);
        proof {
            assert forall|k: int| 0 <= k < self.path_cache@.len() implies {
                let c = #[trigger] self.path_cache@[k];
                &&& c.src < self.nodes@.len()
                &&& c.tgt < self.nodes@.len()
                &&& c.src != c.tgt
                &&& self.answers_ids(c.src as int, c.tgt as int, c.route)
            } by {}
        }
    }

    /// The route from `from` to `to`: an identity where they are the same system;
    /// else, where an edge joins them directly, the cheapest such edge (an identity
    /// where that edge is one); else the edges of a cheapest walk with identities left
    /// out; `None` where either label is unknown or `to` cannot be reached.
    /// Answers are cached until the next `add_edge`.
    pub fn find_path(&mut self, from: &str, to: &str) -> (r: Option<Route>)
        requires
            old(self).wf(),
        ensures
            final(self).wf(),
            final(self).spec_nodes() == old(self).spec_nodes(),
            final(self).spec_links() == old(self).spec_links(),
            old(self).answers(from@, to@, r),
    {
        let u = match self.node_index(from) {
            Some(u) => u,
            None => {
                return None;
            },
        };
        if from.to_owned() == to.to_owned() {
            return Some(Route { ndim: self.nodes[u].ndim, edges: Vec::new() });
        }
        let v = match self.node_index(to) {
            Some(v) => v,
            None => {
                return None;
            },
        };
        proof {
            assert(u != v) by {
                assert(self.spec_nodes()[u as int].label@ == from@);
                assert(self.spec_nodes()[v as int].label@ == to@);
            }
        }
        match self.cache_lookup(u, v) {
            Some(cached) => {
                return cached;
            },
            None => {},
        }
        let ndim = self.nodes[u].ndim;
        match self.best_edge(u, v) {
            Some(e) => {
                proof {
                    lemma_best_edge_unique(self.spec_links(), u, v, e as int, best_edge_spec(self.spec_links(), u, v));
                }
                let edges = if self.is_identity_link(e) {
                    Vec::new()
                } else {
                    vec![e]
                };
                let r = Some(Route { ndim, edges });
                proof {
                    assert(r->0.edges@ =~= if is_identity_edge(self.spec_links(), e as int) {
                        Seq::<usize>::empty()
                    } else {
                        seq![e]
                    });
                }
                self.cache_insert(u, v, &r);
                return r;
            },
            None => {},
        }
        let arcs = self.arc_list();
        // edge indices fit in `usize`
        assert(self.spec_links().len() == self.links.len());
        let found = cheapest_path(&arcs, u, v);
        match found {
            None => {
                let r: Option<Route> = None;
                self.cache_insert(u, v, &r);
                r
            },
            Some(p) => {
                let ghost links = self.spec_links();
                let mut edges: Vec<usize> = Vec::new();
                let mut i: usize = 1;
                proof {
                    assert(p@.len() >= 2);
                    assert(p@.subrange(0, 1).len() < 2);
                }
                while i < p.len()
                    invariant
                        1 <= i <= p@.len(),
                        links == self.spec_links(),
                        arcs@ == self.arcs(),
                        is_path(arcs@, u, v, p@),
                        edges@ == route_edges(links, p@.subrange(0, i as int)),
                    decreases p.len() - i,
                {
                    let a = p[i - 1];
                    let b = p[i];
                    proof {
                        assert(step_connected(arcs@, p@, i - 1));
                    }
                    let e = self.best_edge(a, b).unwrap();
                    proof {
                        lemma_best_edge_unique(links, a, b, e as int, best_edge_spec(links, a, b));
                        let q = p@.subrange(0, i + 1);
                        assert(q.drop_last() =~= p@.subrange(0, i as int));
                        assert(q[q.len() - 2] == a && q.last() == b);
                    }
                    if !self.is_identity_link(e) {
                        edges.push(e);
                    }
                    i = i + 1;
                }
                proof {
                    assert(p@.subrange(0, p@.len() as int) =~= p@);
                    assert(links_join(self.spec_nodes(), self.spec_links()));
                    lemma_route_chains(self.spec_nodes(), self.spec_links(), u, v, p@);
                }
                let r = Some(Route { ndim, edges });
                self.cache_insert(u, v, &r);
                r
            },
        }
    }
}

/// Among parallel edges some edge is a cheapest one.
pub proof fn lemma_best_edge_exists<X>(links: Seq<Link<X>>, a: usize, b: usize)
    requires
        exists|e: int| 0 <= e < links.len() && #[trigger] links[e].src == a && links[e].tgt == b,
    ensures
        is_best_edge(links, a, b, best_edge_spec(links, a, b)),
    decreases links.len(),
{
    let n = links.len() as int;
    let init = links.drop_last();
    let l = links.last();
    let has_init = exists|e: int| 0 <= e < init.len() && #[trigger] init[e].src == a && init[e].tgt == b;
    if has_init {
        lemma_best_edge_exists(init, a, b);
        let e0 = best_edge_spec(init, a, b);
        if l.src == a && l.tgt == b && l.edge.cost <= init[e0].edge.cost {
            assert forall|f: int| 0 <= f < n && #[trigger] links[f].src == a && links[f].tgt == b implies links[n
                - 1].edge.cost <= links[f].edge.cost by {
                if f < n - 1 {
                    assert(init[f] == links[f]);
                }
            }
            assert(is_best_edge(links, a, b, n - 1));
        } else {
            assert forall|f: int| 0 <= f < n && #[trigger] links[f].src == a && links[f].tgt == b implies links[e0].edge.cost
                <= links[f].edge.cost by {
                if f < n - 1 {
                    assert(init[f] == links[f]);
                }
            }
            assert forall|f: int| e0 < f < n && #[trigger] links[f].src == a && links[f].tgt == b implies links[e0].edge.cost
                < links[f].edge.cost by {
                if f < n - 1 {
                    assert(init[f] == links[f]);
                }
            }
            assert(is_best_edge(links, a, b, e0));
        }
    } else {
        let w = choose|e: int| 0 <= e < links.len() && #[trigger] links[e].src == a && links[e].tgt == b;
        assert(w == n - 1) by {
            if w < n - 1 {
                assert(init[w] == links[w]);
            }
        }
        assert forall|f: int| 0 <= f < n && #[trigger] links[f].src == a && links[f].tgt == b implies f == n - 1 by {
            if f < n - 1 {
                assert(init[f] == links[f]);
            }
        }
        assert(is_best_edge(links, a, b, n - 1));
    }
}

proof fn lemma_connected_links<X>(links: Seq<Link<X>>, a: usize, b: usize)
    requires
        connected(arcs_of(links), a, b),
    ensures
        exists|e: int| 0 <= e < links.len() && #[trigger] links[e].src == a && links[e].tgt == b,
{
    let e = choose|e: int| 0 <= e < arcs_of(links).len() && #[trigger] arcs_of(links)[e].0 == a && arcs_of(links)[e].1 == b;
    assert(links[e].src == a && links[e].tgt == b);
}

/// Edges join known systems, and an identity edge joins systems of one dimensionality.
pub open spec fn links_join<X>(nodes: Seq<NodeInfo>, links: Seq<Link<X>>) -> bool {
    forall|e: int| 0 <= e < links.len() ==> {
        &&& (#[trigger] links[e]).src < nodes.len()
        &&& links[e].tgt < nodes.len()
        &&& (links[e].edge.transform is Identity ==> nodes[links[e].src as int].ndim == nodes[links[e].tgt as int].ndim)
    }
}

/// The edges of a route along a walk chain from the walk's first system to its last.
pub proof fn lemma_route_chains<X>(nodes: Seq<NodeInfo>, links: Seq<Link<X>>, a: usize, b: usize, p: Seq<usize>)
    requires
        links_join(nodes, links),
        is_path(arcs_of(links), a, b, p),
        a < nodes.len(),
        links.len() <= usize::MAX,
    ensures
        route_chains(nodes, links, route_edges(links, p), nodes[a as int].ndim, nodes[b as int].ndim),
    decreases p.len(),
{
    if p.len() >= 2 {
        let n = p.len() as int;
        let q = p.drop_last();
        let (x, y) = (p[n - 2], p[n - 1]);
        assert(step_connected(arcs_of(links), p, n - 2));
        assert(is_path(arcs_of(links), a, x, q)) by {
            assert forall|i: int| 0 <= i < q.len() - 1 implies #[trigger] step_connected(arcs_of(links), q, i) by {
                assert(step_connected(arcs_of(links), p, i));
            }
        }
        lemma_route_chains(nodes, links, a, x, q);
        lemma_connected_links(links, x, y);
        lemma_best_edge_exists(links, x, y);
        let e = best_edge_spec(links, x, y);
        let rest = route_edges(links, q);
        assert(links[e].src == x && links[e].tgt == y);
        assert(q.last() == x);
        assert(route_chains(nodes, links, rest, nodes[a as int].ndim, nodes[x as int].ndim));
        if is_identity_edge(links, e) {
            assert(route_edges(links, p) == rest);
            assert(nodes[x as int].ndim == nodes[y as int].ndim);
        } else {
            let r = rest.push(e as usize);
            assert(route_edges(links, p) == r);
            assert(r.last() == e as usize && e as usize == e);
            if rest.len() > 0 {
                assert(r[0] == rest[0]);
                assert forall|j: int| 0 <= j < r.len() - 1 implies #[trigger] edges_meet(nodes, links, r, j) by {
                    if j < rest.len() - 1 {
                        assert(r[j] == rest[j] && r[j + 1] == rest[j + 1]);
                        assert(edges_meet(nodes, links, rest, j));
                    } else {
                        assert(r[j] == rest.last());
                        assert(r[j + 1] == e);
                    }
                }
            } else {
                assert(r[0] == e);
            }
        }
    } else {
        assert(p.last() == p[0]);
    }
}

/// Where edges join two systems both ways, queries in both directions find a route.
pub proof fn lemma_both_ways<X>(g: TransformGraph<X>, from: Seq<char>, to: Seq<char>, there: Option<Route>, back: Option<Route>)
    requires
        g.wf(),
        from != to,
        g.node_of(from) is Some,
        g.node_of(to) is Some,
        connected(g.arcs(), g.node_of(from)->0 as usize, g.node_of(to)->0 as usize),
        connected(g.arcs(), g.node_of(to)->0 as usize, g.node_of(from)->0 as usize),
        g.answers(from, to, there),
        g.answers(to, from, back),
    ensures
        there is Some,
        back is Some,
{
}

/// Adding an edge with its inverse (or an identity) joins the two systems both ways.
pub proof fn lemma_added_inverse_connects<X>(
    links: Seq<Link<X>>,
    u: usize,
    v: usize,
    transform: X,
    shape: TransformShape,
    inverse: Option<X>,
    cost: u64,
)
    requires
        shape.is_identity || inverse is Some,
    ensures
        connected(arcs_of(links + new_links(u, v, transform, shape, inverse, cost, true)), u, v),
        connected(arcs_of(links + new_links(u, v, transform, shape, inverse, cost, true)), v, u),
{
    let all = links + new_links(u, v, transform, shape, inverse, cost, true);
    let arcs = arcs_of(all);
    let n = links.len() as int;
    assert(arcs[n].0 == v && arcs[n].1 == u);
    assert(arcs[n + 1].0 == u && arcs[n + 1].1 == v);
}

/// Of two parallel edges with different costs, the dearer one is never the one used.
pub proof fn lemma_cheaper_parallel_edge_wins<X>(links: Seq<Link<X>>, a: usize, b: usize, cheap: int, dear: int)
    requires
        0 <= cheap < links.len(),
        0 <= dear < links.len(),
        links[cheap].src == a && links[cheap].tgt == b,
        links[dear].src == a && links[dear].tgt == b,
        links[cheap].edge.cost < links[dear].edge.cost,
    ensures
        best_edge_spec(links, a, b) != dear,
{
    lemma_best_edge_exists(links, a, b);
    let e = best_edge_spec(links, a, b);
    assert(links[e].edge.cost <= links[cheap].edge.cost);
}

/// Where an identity edge joins two systems and every other edge between them
/// costs something, the route between them is the identity.
pub proof fn lemma_identity_edge_gives_identity<X>(g: TransformGraph<X>, from: Seq<char>, to: Seq<char>, id_edge: int, r: Option<Route>)
    requires
        g.wf(),
        from != to,
        g.node_of(from) is Some,
        g.node_of(to) is Some,
        0 <= id_edge < g.spec_links().len(),
        g.spec_links()[id_edge].src == g.node_of(from)->0,
        g.spec_links()[id_edge].tgt == g.node_of(to)->0,
        g.spec_links()[id_edge].edge.transform is Identity,
        forall|f: int| 0 <= f < g.spec_links().len() && #[trigger] g.spec_links()[f].src == g.node_of(from)->0
            && g.spec_links()[f].tgt == g.node_of(to)->0 && g.spec_links()[f].edge.transform is Given
            ==> g.spec_links()[f].edge.cost > 0,
        g.answers(from, to, r),
    ensures
        r is Some,
        r->0.edges@.len() == 0,
        r->0.ndim == g.spec_nodes()[g.node_of(from)->0].ndim,
{
    let links = g.spec_links();
    let (u, v) = (g.node_of(from)->0 as usize, g.node_of(to)->0 as usize);
    let arcs = g.arcs();
    assert(arcs[id_edge].0 == u && arcs[id_edge].1 == v);
    lemma_best_edge_exists(links, u, v);
    let e = best_edge_spec(links, u, v);
    assert(links[id_edge].edge.cost == 0);
    assert(links[e].edge.cost <= links[id_edge].edge.cost);
}

} // verus!
