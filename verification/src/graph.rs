//! The dependency graph: vertices are package identities, and the edge
//! between two vertices carries every dependency declaration connecting
//! them (one package pair may be declared once per dependency category).
//!
//! The graph is an association list of nodes, each node an association
//! list of outgoing edges.  Well-formedness ([`Graph::wf`]) asks for
//! distinct vertex keys, distinct edge keys per vertex, and that every
//! edge target is itself a vertex.

use crate::alist::alist_contains;
use crate::alist::alist_get;
use crate::alist::find_key_index;
use crate::alist::lemma_alist_contains_push;
use crate::alist::lemma_alist_contains_same_keys;
use crate::alist::lemma_alist_get_absent;
use crate::alist::lemma_alist_get_present;
use crate::alist::lemma_alist_get_push;
use crate::alist::lemma_alist_get_update;
use crate::alist::unique_keys;
use crate::types::deps_view;
use crate::types::dup_dependencies;
use crate::types::ids_view;
use crate::types::Dependency;
use crate::types::DependencyView;
use crate::types::PackageId;
use crate::types::PkgIdView;
use vstd::prelude::*;

verus! {

/// The view of one node's outgoing edge list.
pub open spec fn edges_view(s: Seq<(PackageId, Vec<Dependency>)>) -> Seq<
    (PkgIdView, Seq<DependencyView>),
> {
    s.map_values(|e: (PackageId, Vec<Dependency>)| (e.0@, deps_view(e.1@)))
}

/// The view of a whole graph: nodes in insertion order, each with its
/// outgoing edges.
pub type GraphView = Seq<(PkgIdView, Seq<(PkgIdView, Seq<DependencyView>)>)>;

/// The keys of a graph view, in node order.
pub open spec fn graph_keys(g: GraphView) -> Seq<PkgIdView> {
    g.map_values(|n: (PkgIdView, Seq<(PkgIdView, Seq<DependencyView>)>)| n.0)
}

/// The dependency declarations from `f` to `t` in the graph `g`, if that
/// edge exists.
pub open spec fn graph_edge(g: GraphView, f: PkgIdView, t: PkgIdView) -> Option<
    Seq<DependencyView>,
> {
    match alist_get(g, f) {
        Some(es) => alist_get(es, t),
        None => None,
    }
}

/// Registering a vertex with no outgoing edges changes no edge lookup.
proof fn lemma_graph_edge_push_node(g: GraphView, node: PkgIdView)
    ensures
        forall|f: PkgIdView, t: PkgIdView| #[trigger]
            graph_edge(g.push((node, Seq::empty())), f, t) == graph_edge(g, f, t),
{
    assert forall|f: PkgIdView, t: PkgIdView| #[trigger]
        graph_edge(g.push((node, Seq::empty())), f, t) == graph_edge(g, f, t) by {
        lemma_alist_get_push(g, (node, Seq::empty()), f);
        if !alist_contains(g, f) {
            lemma_alist_get_absent(g, f);
            if node == f {
                assert(alist_get(Seq::<(PkgIdView, Seq<DependencyView>)>::empty(), t) is None);
            }
        }
    }
}

/// The well-formedness of a graph view: distinct vertices, distinct edge
/// keys per vertex, every edge target a vertex.
pub open spec fn graph_wf(g: GraphView) -> bool {
    &&& unique_keys(g)
    &&& forall|i: int| 0 <= i < g.len() ==> unique_keys((#[trigger] g[i]).1)
    &&& forall|i: int, j: int|
        0 <= i < g.len() && 0 <= j < g[i].1.len() ==> alist_contains(g, (#[trigger] g[i].1[j]).0)
}

/// Replacing one node's edge list by another with keys drawn from the
/// vertex set keeps the graph well-formed.
proof fn lemma_update_node_wf(
    mid: GraphView,
    i: int,
    new_edges: Seq<(PkgIdView, Seq<DependencyView>)>,
    fin: GraphView,
)
    requires
        graph_wf(mid),
        0 <= i < mid.len(),
        fin == mid.update(i, (mid[i].0, new_edges)),
        unique_keys(new_edges),
        forall|b: int| 0 <= b < new_edges.len() ==> alist_contains(mid, (#[trigger] new_edges[b]).0),
    ensures
        graph_wf(fin),
        forall|k: PkgIdView| #[trigger] alist_contains(fin, k) <==> alist_contains(mid, k),
        forall|k: PkgIdView| #[trigger]
            alist_get(fin, k) == if k == mid[i].0 {
                Some(new_edges)
            } else {
                alist_get(mid, k)
            },
{
    assert forall|m: int| 0 <= m < fin.len() implies (#[trigger] fin[m]).0 == mid[m].0 by {}
    lemma_alist_contains_same_keys(fin, mid);
    assert forall|k: PkgIdView| #[trigger]
        alist_get(fin, k) == if k == mid[i].0 {
            Some(new_edges)
        } else {
            alist_get(mid, k)
        } by {
        lemma_alist_get_update(mid, i, new_edges, k);
    }
    assert forall|a: int, b: int| 0 <= a < b < fin.len() implies fin[a].0 != fin[b].0 by {
        assert(mid[a].0 != mid[b].0);
    }
    assert forall|a: int| 0 <= a < fin.len() implies unique_keys((#[trigger] fin[a]).1) by {
        if a != i {
            assert(fin[a] == mid[a]);
        }
        assert(unique_keys(mid[a].1));
    }
    assert forall|a: int, b: int|
        0 <= a < fin.len() && 0 <= b < fin[a].1.len() implies alist_contains(
        fin,
        (#[trigger] fin[a].1[b]).0,
    ) by {
        if a == i {
            assert(alist_contains(mid, new_edges[b].0));
        } else {
            assert(fin[a] == mid[a]);
            assert(alist_contains(mid, mid[a].1[b].0));
        }
    }
}

/// The identities along a diagnostic path.
pub open spec fn path_ids(s: Seq<(PackageId, Option<Vec<Dependency>>)>) -> Seq<PkgIdView> {
    s.map_values(|e: (PackageId, Option<Vec<Dependency>>)| e.0@)
}

/// The view of a diagnostic path: each step an identity and the edge set
/// toward the next step.
pub open spec fn path_view(s: Seq<(PackageId, Option<Vec<Dependency>>)>) -> Seq<
    (PkgIdView, Option<Seq<DependencyView>>),
> {
    s.map_values(
        |e: (PackageId, Option<Vec<Dependency>>)|
            (
                e.0@,
                match e.1 {
                    Some(v) => Some(deps_view(v@)),
                    None => None,
                },
            ),
    )
}

/// A key occurs among `graph_keys` exactly when it is a vertex.
proof fn lemma_keys_contains(g: GraphView)
    ensures
        forall|k: PkgIdView| #[trigger] graph_keys(g).contains(k) <==> alist_contains(g, k),
{
    assert forall|k: PkgIdView| #[trigger] graph_keys(g).contains(k) <==> alist_contains(g, k) by {
        if graph_keys(g).contains(k) {
            let i = choose|i: int|
                0 <= i < graph_keys(g).len() && #[trigger] graph_keys(g)[i] == k;
            assert(g[i].0 == k);
        }
        if alist_contains(g, k) {
            let i = choose|i: int| 0 <= i < g.len() && (#[trigger] g[i]).0 == k;
            assert(graph_keys(g)[i] == k);
        }
    }
}

/// Distinct vertices give pairwise-distinct keys.
proof fn lemma_keys_no_dup(g: GraphView)
    requires
        unique_keys(g),
    ensures
        graph_keys(g).no_duplicates(),
{
    assert forall|i: int, j: int|
        0 <= i < graph_keys(g).len() && 0 <= j < graph_keys(g).len() && i != j implies graph_keys(
        g,
    )[i] != graph_keys(g)[j] by {
        if i < j {
            assert(g[i].0 != g[j].0);
        } else {
            assert(g[j].0 != g[i].0);
        }
    }
}

/// A duplicate-free sequence whose members all occur in another
/// duplicate-free sequence is no longer than it.
pub proof fn lemma_unique_ids_bound(a: Seq<PkgIdView>, b: Seq<PkgIdView>)
    requires
        a.no_duplicates(),
        b.no_duplicates(),
        forall|k: PkgIdView| a.contains(k) ==> #[trigger] b.contains(k),
    ensures
        a.len() <= b.len(),
{
    broadcast use vstd::seq_lib::seq_to_set_is_finite;
    broadcast use vstd::set::group_set_axioms;

    a.unique_seq_to_set();
    b.unique_seq_to_set();
    assert(a.to_set().subset_of(b.to_set())) by {
        assert forall|k: PkgIdView| a.to_set().contains(k) implies b.to_set().contains(k) by {
            assert(a.contains(k));
        }
    }
    vstd::set_lib::lemma_len_subset(a.to_set(), b.to_set());
}

/// Whether the path already holds the identity `k`.
fn path_holds(path: &Vec<(PackageId, Option<Vec<Dependency>>)>, k: &PackageId) -> (r: bool)
    ensures
        r == path_ids(path@).contains(k@),
{
    let mut i: usize = 0;
    while i < path.len()
        invariant
            i <= path.len(),
            forall|j: int| 0 <= j < i ==> (#[trigger] path@[j]).0@ != k@,
        decreases path.len() - i,
    {
        if path[i].0 == *k {
            proof {
                assert(path_ids(path@)[i as int] == k@);
            }
            return true;
        }
        i = i + 1;
    }
    proof {
        if path_ids(path@).contains(k@) {
            let j = choose|j: int|
                0 <= j < path_ids(path@).len() && #[trigger] path_ids(path@)[j] == k@;
            assert(path@[j].0@ == k@);
        }
    }
    false
}

/// A directed graph over package identities whose edges carry the set of
/// dependency declarations between the two packages.
#[derive(Clone, Debug)]
pub struct Graph {
    pub nodes: Vec<(PackageId, Vec<(PackageId, Vec<Dependency>)>)>,
}

impl View for Graph {
    type V = GraphView;

    open spec fn view(&self) -> GraphView {
        self.nodes@.map_values(
            |n: (PackageId, Vec<(PackageId, Vec<Dependency>)>)| (n.0@, edges_view(n.1@)),
        )
    }
}

impl Graph {
    /// Distinct vertices, distinct edge keys per vertex, and every edge
    /// target present as a vertex.
    pub open spec fn wf(&self) -> bool {
        graph_wf(self@)
    }

    /// Whether `k` is a vertex.
    pub open spec fn spec_contains(&self, k: PkgIdView) -> bool {
        alist_contains(self@, k)
    }

    /// The outgoing edges of `k`, if `k` is a vertex.
    pub open spec fn spec_edges(&self, k: PkgIdView) -> Option<
        Seq<(PkgIdView, Seq<DependencyView>)>,
    > {
        alist_get(self@, k)
    }

    /// The dependency declarations from `from` to `to`, if that edge
    /// exists.
    pub open spec fn spec_edge(&self, from: PkgIdView, to: PkgIdView) -> Option<
        Seq<DependencyView>,
    > {
        graph_edge(self@, from, to)
    }

    /// An empty graph.
    pub fn new() -> (r: Graph)
        ensures
            r@ =~= Seq::<(PkgIdView, Seq<(PkgIdView, Seq<DependencyView>)>)>::empty(),
            r.wf(),
    {
        Graph { nodes: Vec::new() }
    }

    /// Whether `k` is a vertex.
    pub fn contains(&self, k: &PackageId) -> (r: bool)
        ensures
            r == self.spec_contains(k@),
    {
        match find_key_index(&self.nodes, k) {
            Some(i) => {
                proof {
                    assert(self@[i as int].0 == k@);
                }
                true
            },
            None => {
                proof {
                    assert forall|j: int| 0 <= j < self@.len() implies (#[trigger] self@[j]).0
                        != k@ by {
                        assert(self.nodes@[j].0@ != k@);
                    }
                }
                false
            },
        }
    }

    /// The vertices, in insertion order.
    pub fn vertices(&self) -> (r: Vec<PackageId>)
        ensures
            ids_view(r@) == graph_keys(self@),
    {
        let mut out: Vec<PackageId> = Vec::new();
        let mut i: usize = 0;
        while i < self.nodes.len()
            invariant
                i <= self.nodes.len(),
                ids_view(out@) == graph_keys(self@.take(i as int)),
            decreases self.nodes.len() - i,
        {
            out.push(self.nodes[i].0.duplicate());
            proof {
                assert(graph_keys(self@.take(i + 1)) =~= graph_keys(self@.take(i as int)).push(
                    self@[i as int].0,
                ));
                assert(ids_view(out@) =~= ids_view(out@.take(out@.len() - 1)).push(out@.last()@));
                assert(out@.take(out@.len() - 1) =~= out@.drop_last());
            }
            i = i + 1;
        }
        proof {
            assert(self@.take(self@.len() as int) =~= self@);
        }
        out
    }

    /// The dependency declarations on the edge `from -> to`, if present.
    pub fn edge(&self, from: &PackageId, to: &PackageId) -> (r: Option<&Vec<Dependency>>)
        ensures
            match r {
                Some(v) => self.spec_edge(from@, to@) == Some(deps_view(v@)),
                None => self.spec_edge(from@, to@) is None,
            },
    {
        let i = match find_key_index(&self.nodes, from) {
            Some(i) => i,
            None => {
                proof {
                    assert forall|j: int| 0 <= j < self@.len() implies (#[trigger] self@[j]).0
                        != from@ by {
                        assert(self.nodes@[j].0@ != from@);
                    }
                    lemma_alist_get_absent(self@, from@);
                }
                return None;
            },
        };
        proof {
            assert(self@[i as int].0 == from@);
            assert forall|j: int| 0 <= j < i implies (#[trigger] self@[j]).0 != from@ by {
                assert(self.nodes@[j].0@ != from@);
            }
            lemma_alist_get_present(self@, i as int);
        }
        let edges = &self.nodes[i].1;
        let ghost ev = self@[i as int].1;
        match find_key_index(edges, to) {
            Some(j) => {
                proof {
                    assert(ev[j as int].0 == to@);
                    assert forall|m: int| 0 <= m < j implies (#[trigger] ev[m]).0 != to@ by {
                        assert(edges@[m].0@ != to@);
                    }
                    lemma_alist_get_present(ev, j as int);
                    assert(ev[j as int].1 == deps_view(edges@[j as int].1@));
                }
                Some(&edges[j].1)
            },
            None => {
                proof {
                    assert forall|m: int| 0 <= m < ev.len() implies (#[trigger] ev[m]).0 != to@ by {
                        assert(edges@[m].0@ != to@);
                    }
                    lemma_alist_get_absent(ev, to@);
                }
                None
            },
        }
    }

    /// An owned copy of the outgoing edges of `pkg`; empty when `pkg` is
    /// not a vertex.
    pub fn edge_list(&self, pkg: &PackageId) -> (r: Vec<(PackageId, Vec<Dependency>)>)
        ensures
            edges_view(r@) == match self.spec_edges(pkg@) {
                Some(es) => es,
                None => Seq::<(PkgIdView, Seq<DependencyView>)>::empty(),
            },
    {
        let i = match find_key_index(&self.nodes, pkg) {
            Some(i) => i,
            None => {
                proof {
                    assert forall|j: int| 0 <= j < self@.len() implies (#[trigger] self@[j]).0
                        != pkg@ by {
                        assert(self.nodes@[j].0@ != pkg@);
                    }
                    lemma_alist_get_absent(self@, pkg@);
                    assert(edges_view(Seq::<(PackageId, Vec<Dependency>)>::empty()) =~= Seq::<
                        (PkgIdView, Seq<DependencyView>),
                    >::empty());
                }
                return Vec::new();
            },
        };
        proof {
            assert(self@[i as int].0 == pkg@);
            assert forall|j: int| 0 <= j < i implies (#[trigger] self@[j]).0 != pkg@ by {
                assert(self.nodes@[j].0@ != pkg@);
            }
            lemma_alist_get_present(self@, i as int);
        }
        let edges = &self.nodes[i].1;
        let ghost ev = self@[i as int].1;
        let mut out: Vec<(PackageId, Vec<Dependency>)> = Vec::new();
        let mut j: usize = 0;
        while j < edges.len()
            invariant
                j <= edges.len(),
                ev == edges_view(edges@),
                edges_view(out@) == ev.take(j as int),
            decreases edges.len() - j,
        {
            let entry = (edges[j].0.duplicate(), dup_dependencies(&edges[j].1));
            out.push(entry);
            proof {
                assert(ev[j as int] == (edges@[j as int].0@, deps_view(edges@[j as int].1@)));
                assert(ev.take(j + 1) =~= ev.take(j as int).push(ev[j as int]));
                assert(edges_view(out@) =~= edges_view(out@.take(out@.len() - 1)).push(
                    (out@.last().0@, deps_view(out@.last().1@)),
                ));
                assert(out@.take(out@.len() - 1) =~= out@.drop_last());
            }
            j = j + 1;
        }
        proof {
            assert(ev.take(ev.len() as int) =~= ev);
        }
        out
    }

    /// Registers `node` as a vertex; a second registration changes
    /// nothing.
    pub fn add(&mut self, node: &PackageId)
        requires
            old(self).wf(),
        ensures
            final(self).wf(),
            old(self).spec_contains(node@) ==> final(self)@ == old(self)@,
            !old(self).spec_contains(node@) ==> final(self)@ == old(self)@.push(
                (node@, Seq::empty()),
            ),
    {
        let found = find_key_index(&self.nodes, node);
        match found {
            Some(i) => {
                proof {
                    assert(self@[i as int].0 == node@);
                }
            },
            None => {
                proof {
                    assert forall|j: int| 0 <= j < self@.len() implies (#[trigger] self@[j]).0
                        != node@ by {
                        assert(self.nodes@[j].0@ != node@);
                    }
                }
                let ghost before = self@;
                self.nodes.push((node.duplicate(), Vec::new()));
                proof {
                    assert(self@ =~~= before.push((node@, Seq::empty())));
                    assert(final(self).wf()) by {
                        assert forall|i: int, j: int|
                            0 <= i < self@.len() && 0 <= j < self@[i].1.len() implies alist_contains(
                            self@,
                            (#[trigger] self@[i].1[j]).0,
                        ) by {
                            assert(i < before.len());
                            assert(self@[i] == before[i]);
                            assert(alist_contains(before, before[i].1[j].0));
                            let w = choose|w: int|
                                0 <= w < before.len() && (#[trigger] before[w]).0 == before[i].1[
                                    j].0;
                            assert(self@[w].0 == before[i].1[j].0);
                        }
                    }
                }
            },
        }
    }

    /// Adds the declaration `dep` to the edge `from -> to`, creating the
    /// vertices and the edge as needed.
    #[verifier::rlimit(50)]
    pub fn link(&mut self, from: &PackageId, to: &PackageId, dep: Dependency)
        requires
            old(self).wf(),
        ensures
            final(self).wf(),
            forall|k: PkgIdView| #[trigger]
                final(self).spec_contains(k) <==> old(self).spec_contains(k) || k == from@ || k
                    == to@,
            final(self).spec_edge(from@, to@) == Some(
                (match old(self).spec_edge(from@, to@) {
                    Some(es) => es,
                    None => Seq::<DependencyView>::empty(),
                }).push(dep@),
            ),
            forall|f: PkgIdView, t: PkgIdView|
                !(f == from@ && t == to@) ==> #[trigger] final(self).spec_edge(f, t) == old(
                    self,
                ).spec_edge(f, t),
    {
        let ghost g0 = self@;
        self.add(from);
        let ghost g1 = self@;
        self.add(to);
        let ghost mid = self@;
        proof {
            if !alist_contains(g0, from@) {
                lemma_graph_edge_push_node(g0, from@);
                lemma_alist_contains_push(g0, (from@, Seq::empty()));
            }
            if !alist_contains(g1, to@) {
                lemma_graph_edge_push_node(g1, to@);
                lemma_alist_contains_push(g1, (to@, Seq::empty()));
            }
            assert(forall|f: PkgIdView, t: PkgIdView| #[trigger]
                graph_edge(mid, f, t) == graph_edge(g0, f, t));
            assert(forall|k: PkgIdView| #[trigger]
                alist_contains(mid, k) <==> alist_contains(g0, k) || k == from@ || k == to@);
            assert(alist_contains(mid, from@));
            assert(alist_contains(mid, to@));
            assert(graph_wf(mid));
        }
        let i = match find_key_index(&self.nodes, from) {
            Some(i) => i,
            None => {
                proof {
                    let w = choose|w: int| 0 <= w < mid.len() && (#[trigger] mid[w]).0 == from@;
                    assert(self.nodes@[w].0@ == from@);
                    assert(false);
                }
                unreached()
            },
        };
        proof {
            assert(mid[i as int].0 == from@);
            assert forall|j: int| 0 <= j < i implies (#[trigger] mid[j]).0 != from@ by {
                assert(self.nodes@[j].0@ != from@);
            }
            lemma_alist_get_present(mid, i as int);
        }
        let ghost old_edges = mid[i as int].1;
        let ghost prior = match alist_get(old_edges, to@) {
            Some(es) => es,
            None => Seq::<DependencyView>::empty(),
        };
        let mut node = self.nodes.remove(i);
        proof {
            assert(old_edges == edges_view(node.1@));
        }
        let j_found = find_key_index(&node.1, to);
        let ghost new_edges: Seq<(PkgIdView, Seq<DependencyView>)>;
        match j_found {
            Some(j) => {
                proof {
                    assert(old_edges[j as int].0 == to@);
                    assert forall|m: int| 0 <= m < j implies (#[trigger] old_edges[m]).0 != to@ by {
                        assert(node.1@[m].0@ != to@);
                    }
                    lemma_alist_get_present(old_edges, j as int);
                    assert(prior == old_edges[j as int].1);
                }
                let mut entry = node.1.remove(j);
                entry.1.push(dep);
                node.1.insert(j, entry);
                proof {
                    new_edges = old_edges.update(j as int, (to@, prior.push(dep@)));
                    assert(edges_view(node.1@) =~~= new_edges);
                    assert forall|t: PkgIdView| #[trigger]
                        alist_get(new_edges, t) == if t == to@ {
                            Some(prior.push(dep@))
                        } else {
                            alist_get(old_edges, t)
                        } by {
                        lemma_alist_get_update(old_edges, j as int, prior.push(dep@), t);
                    }
                    assert(unique_keys(new_edges)) by {
                        assert forall|x: int, y: int|
                            0 <= x < y < new_edges.len() implies (#[trigger] new_edges[x]).0 != (
                        #[trigger] new_edges[y]).0 by {
                            assert(new_edges[x].0 == old_edges[x].0);
                            assert(new_edges[y].0 == old_edges[y].0);
                            assert(old_edges[x].0 != old_edges[y].0);
                        }
                    }
                    assert forall|b: int| 0 <= b < new_edges.len() implies alist_contains(
                        mid,
                        (#[trigger] new_edges[b]).0,
                    ) by {
                        assert(new_edges[b].0 == old_edges[b].0);
                        assert(alist_contains(mid, mid[i as int].1[b].0));
                    }
                }
            },
            None => {
                proof {
                    assert forall|m: int| 0 <= m < old_edges.len() implies (#[trigger] old_edges[
                    m]).0 != to@ by {
                        assert(node.1@[m].0@ != to@);
                    }
                    lemma_alist_get_absent(old_edges, to@);
                    assert(prior =~= Seq::<DependencyView>::empty());
                }
                let mut deps: Vec<Dependency> = Vec::new();
                deps.push(dep);
                node.1.push((to.duplicate(), deps));
                proof {
                    new_edges = old_edges.push((to@, prior.push(dep@)));
                    assert(edges_view(node.1@) =~~= new_edges);
                    lemma_alist_contains_push(old_edges, (to@, prior.push(dep@)));
                    assert forall|t: PkgIdView| #[trigger]
                        alist_get(new_edges, t) == if t == to@ {
                            Some(prior.push(dep@))
                        } else {
                            alist_get(old_edges, t)
                        } by {
                        lemma_alist_get_push(old_edges, (to@, prior.push(dep@)), t);
                        if t != to@ && !alist_contains(old_edges, t) {
                            lemma_alist_get_absent(old_edges, t);
                        }
                    }
                    assert(unique_keys(new_edges)) by {
                        assert forall|x: int, y: int|
                            0 <= x < y < new_edges.len() implies (#[trigger] new_edges[x]).0 != (
                        #[trigger] new_edges[y]).0 by {
                            if y == new_edges.len() - 1 {
                                assert(new_edges[x].0 == old_edges[x].0);
                                assert(old_edges[x].0 != to@);
                            } else {
                                assert(new_edges[x].0 == old_edges[x].0);
                                assert(new_edges[y].0 == old_edges[y].0);
                                assert(old_edges[x].0 != old_edges[y].0);
                            }
                        }
                    }
                    assert forall|b: int| 0 <= b < new_edges.len() implies alist_contains(
                        mid,
                        (#[trigger] new_edges[b]).0,
                    ) by {
                        if b == new_edges.len() - 1 {
                            assert(new_edges[b].0 == to@);
                        } else {
                            assert(new_edges[b].0 == old_edges[b].0);
                            assert(alist_contains(mid, mid[i as int].1[b].0));
                        }
                    }
                }
            },
        }
        self.nodes.insert(i, node);
        proof {
            assert(self@ =~~= mid.update(i as int, (from@, new_edges)));
            let fin = self@;
            lemma_update_node_wf(mid, i as int, new_edges, fin);
            assert forall|k: PkgIdView| #[trigger]
                final(self).spec_contains(k) <==> old(self).spec_contains(k) || k == from@ || k
                    == to@ by {
                assert(alist_contains(fin, k) <==> alist_contains(mid, k));
                assert(alist_contains(mid, k) <==> alist_contains(g0, k) || k == from@ || k == to@);
            }
            assert(final(self).spec_edge(from@, to@) == Some(
                (match old(self).spec_edge(from@, to@) {
                    Some(es) => es,
                    None => Seq::<DependencyView>::empty(),
                }).push(dep@),
            )) by {
                assert(graph_edge(g0, from@, to@) == graph_edge(mid, from@, to@));
                assert(alist_get(mid, from@) == Some(old_edges));
                assert(alist_get(fin, from@) == Some(new_edges));
                assert(alist_get(new_edges, to@) == Some(prior.push(dep@)));
            }
            assert forall|f: PkgIdView, t: PkgIdView| !(f == from@ && t == to@) implies #[trigger]
                final(self).spec_edge(f, t) == old(self).spec_edge(f, t) by {
                assert(graph_edge(mid, f, t) == graph_edge(g0, f, t));
                if f == from@ {
                    assert(alist_get(fin, from@) == Some(new_edges));
                    assert(alist_get(mid, from@) == Some(old_edges));
                    assert(alist_get(new_edges, t) == alist_get(old_edges, t));
                } else {
                    assert(alist_get(fin, f) == alist_get(mid, f));
                }
            }
        }
    }

    /// Post-order walk from the vertex at position `i`: marks the vertex,
    /// walks its unvisited children, then appends the vertex to `dst`.
    fn sort_visit(&self, i: usize, dst: &mut Vec<PackageId>, marks: &mut Vec<PackageId>)
        requires
            self.wf(),
            i < self@.len(),
            ids_view(old(marks)@).no_duplicates(),
            forall|k: PkgIdView|
                ids_view(old(marks)@).contains(k) ==> #[trigger] alist_contains(self@, k),
            ids_view(old(dst)@).no_duplicates(),
            forall|k: PkgIdView|
                ids_view(old(dst)@).contains(k) ==> #[trigger] ids_view(old(marks)@).contains(k),
        ensures
            ids_view(final(marks)@).no_duplicates(),
            forall|k: PkgIdView|
                ids_view(final(marks)@).contains(k) ==> #[trigger] alist_contains(self@, k),
            forall|k: PkgIdView|
                ids_view(old(marks)@).contains(k) ==> #[trigger] ids_view(final(marks)@).contains(
                    k,
                ),
            ids_view(final(marks)@).contains(self@[i as int].0),
            final(marks)@.len() >= old(marks)@.len(),
            ids_view(final(dst)@).no_duplicates(),
            forall|k: PkgIdView| #[trigger]
                ids_view(final(dst)@).contains(k) <==> ids_view(old(dst)@).contains(k) || (
                ids_view(final(marks)@).contains(k) && !ids_view(old(marks)@).contains(k)),
            forall|k: PkgIdView|
                ids_view(final(dst)@).contains(k) ==> #[trigger] ids_view(final(marks)@).contains(
                    k,
                ),
        decreases self@.len() - old(marks)@.len(),
    {
        let node_id = &self.nodes[i].0;
        proof {
            assert(self@[i as int].0 == node_id@);
        }
        if crate::types::contains_id(marks, node_id) {
            return ;
        }
        marks.push(node_id.duplicate());
        proof {
            assert(ids_view(marks@) =~= ids_view(old(marks)@).push(node_id@));
            assert forall|a: int, b: int|
                0 <= a < ids_view(marks@).len() && 0 <= b < ids_view(marks@).len() && a
                    != b implies ids_view(marks@)[a] != ids_view(marks@)[b] by {
                if a < ids_view(marks@).len() - 1 && b < ids_view(marks@).len() - 1 {
                } else if a == ids_view(marks@).len() - 1 {
                    if ids_view(old(marks)@)[b] == node_id@ {
                        assert(ids_view(old(marks)@).contains(node_id@));
                    }
                } else {
                    if ids_view(old(marks)@)[a] == node_id@ {
                        assert(ids_view(old(marks)@).contains(node_id@));
                    }
                }
            }
            assert forall|k: PkgIdView|
                ids_view(marks@).contains(k) implies #[trigger] alist_contains(self@, k) by {
                let w = choose|w: int|
                    0 <= w < ids_view(marks@).len() && #[trigger] ids_view(marks@)[w] == k;
                if w < ids_view(marks@).len() - 1 {
                    assert(ids_view(old(marks)@).contains(k));
                } else {
                    assert(k == self@[i as int].0);
                }
            }
            assert forall|k: PkgIdView|
                ids_view(old(marks)@).contains(k) implies #[trigger] ids_view(marks@).contains(
                    k,
                ) by {
                let w = choose|w: int|
                    0 <= w < ids_view(old(marks)@).len() && #[trigger] ids_view(old(marks)@)[w]
                        == k;
                assert(ids_view(marks@)[w] == k);
            }
            assert(ids_view(marks@)[ids_view(marks@).len() - 1] == node_id@);
            assert(ids_view(marks@).contains(node_id@));
        }
        let ghost marks1 = marks@;
        let n_edges = self.nodes[i].1.len();
        let mut j: usize = 0;
        while j < n_edges
            invariant
                self.wf(),
                i < self@.len(),
                j <= n_edges,
                n_edges == self@[i as int].1.len(),
                ids_view(old(dst)@).no_duplicates(),
                forall|k: PkgIdView|
                    ids_view(old(dst)@).contains(k) ==> #[trigger] ids_view(old(marks)@).contains(
                        k,
                    ),
                !ids_view(old(marks)@).contains(self@[i as int].0),
                ids_view(marks@).no_duplicates(),
                forall|k: PkgIdView|
                    ids_view(marks@).contains(k) ==> #[trigger] alist_contains(self@, k),
                forall|k: PkgIdView|
                    ids_view(old(marks)@).contains(k) ==> #[trigger] ids_view(marks@).contains(k),
                ids_view(marks@).contains(self@[i as int].0),
                marks@.len() >= old(marks)@.len() + 1,
                ids_view(dst@).no_duplicates(),
                forall|k: PkgIdView| #[trigger]
                    ids_view(dst@).contains(k) <==> ids_view(old(dst)@).contains(k) || (ids_view(
                        marks@,
                    ).contains(k) && !ids_view(old(marks)@).contains(k) && k != self@[
                        i as int].0),
                forall|k: PkgIdView|
                    ids_view(dst@).contains(k) ==> #[trigger] ids_view(marks@).contains(k),
            decreases n_edges - j,
        {
            let child = &self.nodes[i].1[j].0;
            proof {
                assert(self@[i as int].1[j as int].0 == child@);
                assert(alist_contains(self@, child@));
            }
            let ci = match find_key_index(&self.nodes, child) {
                Some(ci) => ci,
                None => {
                    proof {
                        let w = choose|w: int|
                            0 <= w < self@.len() && (#[trigger] self@[w]).0 == child@;
                        assert(self.nodes@[w].0@ == child@);
                        assert(false);
                    }
                    unreached()
                },
            };
            proof {
                lemma_keys_no_dup(self@);
                lemma_keys_contains(self@);
                assert forall|k: PkgIdView|
                    ids_view(marks@).contains(k) implies #[trigger] graph_keys(self@).contains(
                        k,
                    ) by {
                    assert(alist_contains(self@, k));
                }
                lemma_unique_ids_bound(ids_view(marks@), graph_keys(self@));
                assert(marks@.len() <= self@.len());
            }
            let ghost marks_before = marks@;
            let ghost dst_before = dst@;
            self.sort_visit(ci, dst, marks);
            proof {
                assert forall|k: PkgIdView| #[trigger]
                    ids_view(dst@).contains(k) <==> ids_view(old(dst)@).contains(k) || (ids_view(
                        marks@,
                    ).contains(k) && !ids_view(old(marks)@).contains(k) && k != self@[
                        i as int].0) by {
                    if ids_view(dst@).contains(k) {
                        if ids_view(dst_before).contains(k) {
                            assert(ids_view(marks_before).contains(k) ==> ids_view(
                                marks@,
                            ).contains(k));
                        }
                    }
                    if ids_view(old(dst)@).contains(k) {
                        assert(ids_view(dst_before).contains(k));
                    }
                    if ids_view(marks@).contains(k) && !ids_view(old(marks)@).contains(k) && k
                        != self@[i as int].0 {
                        if ids_view(marks_before).contains(k) {
                            assert(ids_view(dst_before).contains(k));
                        }
                    }
                }
            }
            j = j + 1;
        }
        let ghost dst_pre = dst@;
        dst.push(self.nodes[i].0.duplicate());
        proof {
            assert(ids_view(dst@) =~= ids_view(dst_pre).push(self@[i as int].0));
            assert(!ids_view(dst_pre).contains(self@[i as int].0));
            assert forall|a: int, b: int|
                0 <= a < ids_view(dst@).len() && 0 <= b < ids_view(dst@).len() && a != b implies
                ids_view(dst@)[a] != ids_view(dst@)[b] by {
                if a < ids_view(dst@).len() - 1 && b < ids_view(dst@).len() - 1 {
                } else if a == ids_view(dst@).len() - 1 {
                    if ids_view(dst_pre)[b] == self@[i as int].0 {
                        assert(ids_view(dst_pre).contains(self@[i as int].0));
                    }
                } else {
                    if ids_view(dst_pre)[a] == self@[i as int].0 {
                        assert(ids_view(dst_pre).contains(self@[i as int].0));
                    }
                }
            }
            assert forall|k: PkgIdView| #[trigger]
                ids_view(dst@).contains(k) <==> ids_view(old(dst)@).contains(k) || (ids_view(
                    marks@,
                ).contains(k) && !ids_view(old(marks)@).contains(k)) by {
                if ids_view(dst@).contains(k) {
                    let w = choose|w: int|
                        0 <= w < ids_view(dst@).len() && #[trigger] ids_view(dst@)[w] == k;
                    if w < ids_view(dst@).len() - 1 {
                        assert(ids_view(dst_pre).contains(k));
                    } else {
                        assert(k == self@[i as int].0);
                    }
                }
                if ids_view(old(dst)@).contains(k) || (ids_view(marks@).contains(k) && !ids_view(
                    old(marks)@,
                ).contains(k)) {
                    if k == self@[i as int].0 {
                        assert(ids_view(dst@)[ids_view(dst@).len() - 1] == k);
                    } else {
                        assert(ids_view(dst_pre).contains(k));
                        let w = choose|w: int|
                            0 <= w < ids_view(dst_pre).len() && #[trigger] ids_view(dst_pre)[w]
                                == k;
                        assert(ids_view(dst@)[w] == k);
                    }
                }
            }
        }
    }

    /// Every vertex exactly once, dependencies walked before their
    /// dependents (post-order over the vertex list).
    pub fn sort(&self) -> (r: Vec<PackageId>)
        requires
            self.wf(),
        ensures
            ids_view(r@).no_duplicates(),
            forall|k: PkgIdView| #[trigger] ids_view(r@).contains(k) <==> alist_contains(self@, k),
    {
        let mut dst: Vec<PackageId> = Vec::new();
        let mut marks: Vec<PackageId> = Vec::new();
        let mut i: usize = 0;
        while i < self.nodes.len()
            invariant
                self.wf(),
                i <= self.nodes.len(),
                ids_view(marks@).no_duplicates(),
                forall|k: PkgIdView|
                    ids_view(marks@).contains(k) ==> #[trigger] alist_contains(self@, k),
                ids_view(dst@).no_duplicates(),
                forall|k: PkgIdView| #[trigger]
                    ids_view(dst@).contains(k) <==> ids_view(marks@).contains(k),
                forall|m: int| 0 <= m < i ==> ids_view(marks@).contains((#[trigger] self@[m]).0),
            decreases self.nodes.len() - i,
        {
            let ghost marks_before = marks@;
            self.sort_visit(i, &mut dst, &mut marks);
            proof {
                assert forall|m: int|
                    0 <= m < i + 1 implies ids_view(marks@).contains((#[trigger] self@[m]).0) by {
                    if m < i {
                        assert(ids_view(marks_before).contains(self@[m].0));
                    }
                }
            }
            i = i + 1;
        }
        proof {
            assert forall|k: PkgIdView| #[trigger]
                ids_view(dst@).contains(k) <==> alist_contains(self@, k) by {
                if alist_contains(self@, k) {
                    let w = choose|w: int| 0 <= w < self@.len() && (#[trigger] self@[w]).0 == k;
                    assert(ids_view(marks@).contains(self@[w].0));
                }
            }
        }
        dst
    }

    /// The first vertex that depends on `cur` and is not yet on the path.
    fn find_parent(
        &self,
        cur: &PackageId,
        path: &Vec<(PackageId, Option<Vec<Dependency>>)>,
    ) -> (r: Option<usize>)
        ensures
            match r {
                Some(n) => n < self@.len() && alist_get(self@[n as int].1, cur@) is Some
                    && !path_ids(path@).contains(self@[n as int].0),
                None => forall|n: int|
                    0 <= n < self@.len() && alist_get((#[trigger] self@[n]).1, cur@) is Some
                        ==> path_ids(path@).contains(self@[n].0),
            },
    {
        let mut n: usize = 0;
        while n < self.nodes.len()
            invariant
                n <= self.nodes.len(),
                forall|m: int|
                    0 <= m < n && alist_get((#[trigger] self@[m]).1, cur@) is Some ==> path_ids(
                        path@,
                    ).contains(self@[m].0),
            decreases self.nodes.len() - n,
        {
            let ghost ev = self@[n as int].1;
            let has_edge = match find_key_index(&self.nodes[n].1, cur) {
                Some(j) => {
                    proof {
                        assert(ev[j as int].0 == cur@);
                        assert forall|m: int| 0 <= m < j implies (#[trigger] ev[m]).0 != cur@ by {
                            assert(self.nodes@[n as int].1@[m].0@ != cur@);
                        }
                        lemma_alist_get_present(ev, j as int);
                    }
                    true
                },
                None => {
                    proof {
                        assert forall|m: int| 0 <= m < ev.len() implies (#[trigger] ev[m]).0
                            != cur@ by {
                            assert(self.nodes@[n as int].1@[m].0@ != cur@);
                        }
                        lemma_alist_get_absent(ev, cur@);
                    }
                    false
                },
            };
            if has_edge {
                if !path_holds(path, &self.nodes[n].0) {
                    proof {
                        assert(self@[n as int].0 == self.nodes@[n as int].0@);
                    }
                    return Some(n);
                }
            }
            n = n + 1;
        }
        None
    }

    /// One representative path from `pkg` up to a root, for "why is this
    /// dependency pulled in" diagnostics.  The last element is `pkg`
    /// itself; every earlier element carries the edge set toward its
    /// successor; the first element is a root relative to the path: every
    /// vertex that depends on it already lies on the path.
    pub fn path_to_top(&self, pkg: &PackageId) -> (r: Vec<(PackageId, Option<Vec<Dependency>>)>)
        requires
            self.wf(),
        ensures
            r@.len() >= 1,
            path_view(r@)[r@.len() - 1] == (pkg@, None::<Seq<DependencyView>>),
            forall|m: int| 0 <= m < r@.len() - 1 ==> (#[trigger] path_view(r@)[m]).1 is Some,
            forall|m: int|
                0 <= m < r@.len() - 1 ==> self.spec_edge(
                    (#[trigger] path_view(r@)[m]).0,
                    path_view(r@)[m + 1].0,
                ) == path_view(r@)[m].1,
            path_ids(r@).no_duplicates(),
            forall|n: int|
                0 <= n < self@.len() && alist_get((#[trigger] self@[n]).1, path_view(r@)[0].0)
                    is Some ==> path_ids(r@).contains(self@[n].0),
    {
        let mut up: Vec<(PackageId, Option<Vec<Dependency>>)> = Vec::new();
        up.push((pkg.duplicate(), None));
        proof {
            assert(path_view(up@) =~= seq![(pkg@, None::<Seq<DependencyView>>)]);
            assert(path_ids(up@) =~= seq![pkg@]);
        }
        let mut done = false;
        while !done
            invariant
                self.wf(),
                up@.len() >= 1,
                up@.len() <= self@.len() + 1,
                path_view(up@)[0] == (pkg@, None::<Seq<DependencyView>>),
                forall|m: int| 1 <= m < up@.len() ==> (#[trigger] path_view(up@)[m]).1 is Some,
                forall|m: int|
                    1 <= m < up@.len() ==> graph_edge(
                        self@,
                        (#[trigger] path_view(up@)[m]).0,
                        path_view(up@)[m - 1].0,
                    ) == path_view(up@)[m].1,
                path_ids(up@).no_duplicates(),
                forall|m: int|
                    1 <= m < up@.len() ==> alist_contains(self@, #[trigger] path_ids(up@)[m]),
                done ==> forall|n: int|
                    0 <= n < self@.len() && alist_get(
                        (#[trigger] self@[n]).1,
                        path_ids(up@)[up@.len() - 1],
                    ) is Some ==> path_ids(up@).contains(self@[n].0),
            decreases (if done {
                0int
            } else {
                1int
            }), self@.len() + 1 - up@.len(),
        {
            let last = up.len() - 1;
            let cur = up[last].0.duplicate();
            proof {
                assert(path_ids(up@)[last as int] == cur@);
            }
            match self.find_parent(&cur, &up) {
                None => {
                    done = true;
                },
                Some(n) => {
                    let j = match find_key_index(&self.nodes[n].1, &cur) {
                        Some(j) => j,
                        None => {
                            proof {
                                let ghost ev = self@[n as int].1;
                                assert forall|m: int| 0 <= m < ev.len() implies (#[trigger] ev[
                                m]).0 != cur@ by {
                                    assert(self.nodes@[n as int].1@[m].0@ != cur@);
                                }
                                lemma_alist_get_absent(ev, cur@);
                                assert(false);
                            }
                            unreached()
                        },
                    };
                    proof {
                        assert(self@[n as int].1[j as int].0 == cur@);
                        assert forall|m: int| 0 <= m < j implies (#[trigger] self@[n as int].1[
                        m]).0 != cur@ by {
                            assert(self.nodes@[n as int].1@[m].0@ != cur@);
                        }
                        lemma_alist_get_present(self@[n as int].1, j as int);
                    }
                    let deps = dup_dependencies(&self.nodes[n].1[j].1);
                    let parent = self.nodes[n].0.duplicate();
                    let ghost upold = up@;
                    up.push((parent, Some(deps)));
                    proof {
                        let pid = self@[n as int].0;
                        assert(path_view(up@) =~= path_view(upold).push(
                            (pid, Some(self@[n as int].1[j as int].1)),
                        ));
                        assert(path_ids(up@) =~= path_ids(upold).push(pid));
                        // the new link
                        assert forall|m: int| 0 <= m < n implies (#[trigger] self@[m]).0 != pid by {
                            assert(self@[m].0 != self@[n as int].0);
                        }
                        lemma_alist_get_present(self@, n as int);
                        assert(graph_edge(self@, pid, cur@) == Some(self@[n as int].1[j as int].1));
                        // distinctness
                        assert(!path_ids(upold).contains(pid));
                        assert forall|a: int, b: int|
                            0 <= a < path_ids(up@).len() && 0 <= b < path_ids(up@).len() && a
                                != b implies path_ids(up@)[a] != path_ids(up@)[b] by {
                            if a < path_ids(up@).len() - 1 && b < path_ids(up@).len() - 1 {
                            } else if a == path_ids(up@).len() - 1 {
                                if path_ids(upold)[b] == pid {
                                    assert(path_ids(upold).contains(pid));
                                }
                            } else {
                                if path_ids(upold)[a] == pid {
                                    assert(path_ids(upold).contains(pid));
                                }
                            }
                        }
                        // length bound
                        lemma_keys_no_dup(self@);
                        lemma_keys_contains(self@);
                        let tail = path_ids(up@).drop_first();
                        assert forall|a: int, b: int|
                            0 <= a < tail.len() && 0 <= b < tail.len() && a != b implies tail[a]
                                != tail[b] by {
                            assert(path_ids(up@)[a + 1] != path_ids(up@)[b + 1]);
                        }
                        assert forall|k: PkgIdView|
                            tail.contains(k) implies #[trigger] graph_keys(self@).contains(k) by {
                            let w = choose|w: int| 0 <= w < tail.len() && #[trigger] tail[w] == k;
                            assert(path_ids(up@)[w + 1] == k);
                            assert(alist_contains(self@, k));
                        }
                        lemma_unique_ids_bound(tail, graph_keys(self@));
                    }
                },
            }
        }
        let ghost upfull = up@;
        let mut rev: Vec<(PackageId, Option<Vec<Dependency>>)> = Vec::new();
        while up.len() > 0
            invariant
                rev@.len() + up@.len() == upfull.len(),
                up@ == upfull.take(up@.len() as int),
                forall|m: int|
                    0 <= m < rev@.len() ==> #[trigger] rev@[m] == upfull[upfull.len() - 1 - m],
            decreases up@.len(),
        {
            let ghost k = up@.len();
            let e = match up.pop() {
                Some(e) => e,
                None => unreached(),
            };
            rev.push(e);
            proof {
                assert(up@ =~= upfull.take(k - 1));
                assert(rev@.last() == upfull[k - 1]);
            }
        }
        proof {
            let lng = upfull.len() as int;
            assert(rev@.len() == lng);
            assert forall|m: int|
                0 <= m < lng implies #[trigger] path_view(rev@)[m] == path_view(upfull)[lng - 1
                - m] && #[trigger] path_ids(rev@)[m] == path_ids(upfull)[lng - 1 - m] by {
                assert(rev@[m] == upfull[lng - 1 - m]);
            }
            assert(path_view(rev@)[lng - 1] == (pkg@, None::<Seq<DependencyView>>));
            assert forall|m: int| 0 <= m < lng - 1 implies (#[trigger] path_view(rev@)[m]).1
                is Some by {
                assert(path_view(rev@)[m] == path_view(upfull)[lng - 1 - m]);
            }
            assert forall|m: int|
                0 <= m < lng - 1 implies self.spec_edge(
                (#[trigger] path_view(rev@)[m]).0,
                path_view(rev@)[m + 1].0,
            ) == path_view(rev@)[m].1 by {
                let mm = lng - 1 - m;
                assert(path_view(rev@)[m] == path_view(upfull)[mm]);
                assert(path_view(rev@)[m + 1] == path_view(upfull)[mm - 1]);
                assert(graph_edge(self@, path_view(upfull)[mm].0, path_view(upfull)[mm - 1].0)
                    == path_view(upfull)[mm].1);
            }
            assert forall|a: int, b: int|
                0 <= a < lng && 0 <= b < lng && a != b implies path_ids(rev@)[a] != path_ids(
                rev@,
            )[b] by {
                assert(path_ids(upfull)[lng - 1 - a] != path_ids(upfull)[lng - 1 - b]);
            }
            assert forall|n: int|
                0 <= n < self@.len() && alist_get((#[trigger] self@[n]).1, path_view(rev@)[0].0)
                    is Some implies path_ids(rev@).contains(self@[n].0) by {
                assert(path_view(rev@)[0].0 == path_view(upfull)[lng - 1].0);
                assert(path_view(upfull)[lng - 1].0 == path_ids(upfull)[lng - 1]);
                assert(path_ids(upfull).contains(self@[n].0));
                let w = choose|w: int|
                    0 <= w < path_ids(upfull).len() && #[trigger] path_ids(upfull)[w] == self@[
                        n].0;
                assert(path_ids(rev@)[lng - 1 - w] == self@[n].0);
            }
        }
        rev
    }
}

} // verus!
