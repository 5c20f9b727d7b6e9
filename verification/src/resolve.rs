//! The resolved dependency graph: an immutable-after-construction graph
//! over package identities with side tables for replacements, features,
//! checksums, forward-compatible metadata, unused patches and public
//! dependencies, together with the queries build planning relies on and
//! the reconciliation of a fresh resolution against a persisted one.

use crate::alist::alist_contains;
use crate::alist::alist_get;
use crate::alist::alist_map;
use crate::alist::find_key_index;
use crate::alist::lemma_alist_contains_same_keys;
use crate::alist::lemma_alist_get_absent;
use crate::alist::lemma_alist_get_map;
use crate::alist::lemma_alist_get_present;
use crate::alist::lemma_alist_map_dom;
use crate::alist::lemma_alist_map_index;
use crate::alist::lemma_alist_map_update;
use crate::alist::swap_pairs;
use crate::alist::unique_keys;
use crate::graph::edges_view;
use crate::graph::graph_edge;
use crate::graph::Graph;
use crate::graph::GraphView;
use crate::types::deps_view;
use crate::types::ids_view;
use crate::types::strings_view;
use crate::types::DepKind;
use crate::types::Dependency;
use crate::types::DependencyView;
use crate::types::Metadata;
use crate::types::PackageId;
use crate::types::PkgIdView;
use crate::types::Summary;
use crate::types::SummaryView;
use vstd::prelude::*;

verus! {

/// The dialect a lockfile is serialized in.  Later variants are newer
/// dialects; the graph's content is independent of the choice.
#[derive(Clone, Copy, Debug, PartialEq, Eq, PartialOrd, Ord, Structural)]
pub enum ResolveVersion {
    /// The historical baseline.
    V1,
    /// A more compact dialect: compressed dependency arrays, checksums
    /// inline.
    V2,
    /// A dialect with an explicit version marker and a changed encoding
    /// of branch-qualified source locations.
    V3,
}

impl Default for ResolveVersion {
    /// The dialect for brand-new or rewritten lockfiles: the newest one.
    /// An existing lockfile keeps its recorded dialect instead.
    fn default() -> (r: ResolveVersion)
        ensures
            r == ResolveVersion::V3,
    {
        ResolveVersion::V3
    }
}

/// A recoverable failure of a graph query or of reconciliation.  Each
/// variant carries the package identities needed to locate the offending
/// manifest or lockfile entry.  Internal invariant violations (a missing
/// edge, an unknown vertex) are deliberately not represented here: they
/// are caller bugs, not user errors, so the `requires` clauses of the
/// queries exclude them instead of folding them into this type.
#[derive(Clone, Debug)]
pub enum ResolveError {
    /// The previous resolution had no checksum for the package, the new
    /// one has one: the package's source apparently changed to one that
    /// supports checksums, so the lock cannot be trusted as-is.
    ChecksumAppeared { package: PackageId },
    /// The previous resolution had a checksum for the package, the new
    /// one has none: the source was replaced by one that cannot verify
    /// integrity.
    ChecksumDisappeared { package: PackageId },
    /// Both resolutions carry a checksum for the package and they differ:
    /// corruption, an unfaithful mirror, or an unfaithful replacement.
    ChecksumChanged { package: PackageId },
    /// A consumer declares the same dependency several times with
    /// different explicit names.
    MultipleNames { from: PackageId, to: PackageId },
    /// A package spec matched no package of the resolution.
    SpecNotFound { name: String },
    /// A package spec matched more than one package of the resolution.
    SpecAmbiguous { name: String },
}

/// The view of a replacement table.
pub open spec fn rep_view(s: Seq<(PackageId, PackageId)>) -> Seq<(PkgIdView, PkgIdView)> {
    s.map_values(|p: (PackageId, PackageId)| (p.0@, p.1@))
}

/// The view of a feature table.
pub open spec fn feats_view(s: Seq<(PackageId, Vec<String>)>) -> Seq<(PkgIdView, Seq<Seq<char>>)> {
    s.map_values(|p: (PackageId, Vec<String>)| (p.0@, strings_view(p.1@)))
}

/// The view of a checksum table.
pub open spec fn cks_view(s: Seq<(PackageId, Option<String>)>) -> Seq<
    (PkgIdView, Option<Seq<char>>),
> {
    s.map_values(
        |p: (PackageId, Option<String>)|
            (
                p.0@,
                match p.1 {
                    Some(c) => Some(c@),
                    None => None,
                },
            ),
    )
}

/// The view of the public-dependency table: per package, the set of its
/// public dependencies.
pub open spec fn pubdeps_view(s: Seq<(PackageId, Vec<PackageId>)>) -> Seq<
    (PkgIdView, Set<PkgIdView>),
> {
    s.map_values(|p: (PackageId, Vec<PackageId>)| (p.0@, ids_view(p.1@).to_set()))
}

/// The view of a summary table.
pub open spec fn summaries_view(s: Seq<(PackageId, Summary)>) -> Seq<(PkgIdView, SummaryView)> {
    s.map_values(|p: (PackageId, Summary)| (p.0@, p.1@))
}

/// Some declaration on the edge is a normal, public dependency.
pub open spec fn has_normal_public(ds: Seq<DependencyView>) -> bool {
    exists|i: int| 0 <= i < ds.len() && (#[trigger] ds[i]).kind == DepKind::Normal && ds[i].public
}

/// The set of public dependencies of `p`: edge targets reached by some
/// normal, public declaration.
pub open spec fn spec_public_deps_of(g: GraphView, p: PkgIdView) -> Set<PkgIdView> {
    match alist_get(g, p) {
        Some(es) => Set::new(
            |q: PkgIdView|
                exists|j: int|
                    0 <= j < es.len() && (#[trigger] es[j]).0 == q && has_normal_public(es[j].1),
        ),
        None => Set::empty(),
    }
}

/// Ghost image of a [`Resolve`]: the graph plus its side tables read as
/// maps keyed by package identity.
pub struct ResolveView {
    pub graph: GraphView,
    pub replacements: Map<PkgIdView, PkgIdView>,
    pub reverse_replacements: Map<PkgIdView, PkgIdView>,
    pub features: Map<PkgIdView, Seq<Seq<char>>>,
    pub checksums: Map<PkgIdView, Option<Seq<char>>>,
    pub metadata: Seq<(Seq<char>, Seq<char>)>,
    pub unused_patches: Seq<PkgIdView>,
    pub public_dependencies: Map<PkgIdView, Set<PkgIdView>>,
    pub version: ResolveVersion,
    pub summaries: Map<PkgIdView, SummaryView>,
}

/// A fully resolved dependency graph with its side tables.  Built once
/// per resolution by [`Resolve::new`] and read-only afterwards, apart
/// from the three narrow mutations `register_used_patches`, `set_version`
/// and `merge_from`.
#[derive(Clone, Debug)]
pub struct Resolve {
    /// Vertices are resolved packages; each edge carries every dependency
    /// declaration between its two packages.
    pub graph: Graph,
    /// Source-level overrides: original package to its stand-in.
    pub replacements: Vec<(PackageId, PackageId)>,
    /// The derived inverse of `replacements`.
    pub reverse_replacements: Vec<(PackageId, PackageId)>,
    /// Features enabled for each package, in activation order.
    pub features: Vec<(PackageId, Vec<String>)>,
    /// Integrity digest per package; `None` records that the package's
    /// source kind does not support checksums.
    pub checksums: Vec<(PackageId, Option<String>)>,
    /// Unrecognized lockfile metadata, preserved verbatim.
    pub metadata: Metadata,
    /// Offered overrides that matched no edge, kept so re-resolution does
    /// not fetch them again.
    pub unused_patches: Vec<PackageId>,
    /// Derived index: per package, the targets of its normal public
    /// dependency declarations.
    pub public_dependencies: Vec<(PackageId, Vec<PackageId>)>,
    /// The lockfile dialect this resolution serializes as.
    pub version: ResolveVersion,
    /// The declared interface of each resolved package.
    pub summaries: Vec<(PackageId, Summary)>,
}

impl View for Resolve {
    type V = ResolveView;

    open spec fn view(&self) -> ResolveView {
        ResolveView {
            graph: self.graph@,
            replacements: alist_map(rep_view(self.replacements@)),
            reverse_replacements: alist_map(rep_view(self.reverse_replacements@)),
            features: alist_map(feats_view(self.features@)),
            checksums: alist_map(cks_view(self.checksums@)),
            metadata: self.metadata@,
            unused_patches: ids_view(self.unused_patches@),
            public_dependencies: alist_map(pubdeps_view(self.public_dependencies@)),
            version: self.version,
            summaries: alist_map(summaries_view(self.summaries@)),
        }
    }
}

impl Resolve {
    /// Distinct keys in every table, a well-formed graph, and one entry
    /// per vertex in the feature, checksum, summary and public-dependency
    /// tables.
    pub open spec fn wf(&self) -> bool {
        &&& self.graph.wf()
        &&& unique_keys(rep_view(self.replacements@))
        &&& unique_keys(rep_view(self.reverse_replacements@))
        &&& unique_keys(feats_view(self.features@))
        &&& unique_keys(cks_view(self.checksums@))
        &&& unique_keys(pubdeps_view(self.public_dependencies@))
        &&& unique_keys(summaries_view(self.summaries@))
        &&& forall|k: PkgIdView| #[trigger]
            alist_contains(feats_view(self.features@), k) <==> alist_contains(self.graph@, k)
        &&& forall|k: PkgIdView| #[trigger]
            alist_contains(cks_view(self.checksums@), k) <==> alist_contains(self.graph@, k)
        &&& forall|k: PkgIdView| #[trigger]
            alist_contains(summaries_view(self.summaries@), k) <==> alist_contains(self.graph@, k)
        &&& forall|k: PkgIdView| #[trigger]
            alist_contains(pubdeps_view(self.public_dependencies@), k) <==> alist_contains(
                self.graph@,
                k,
            )
    }

    /// Assembles a resolution from the solver's already-validated output
    /// and derives the two indexes: the inverse replacement table and the
    /// public-dependency table.
    pub fn new(
        graph: Graph,
        replacements: Vec<(PackageId, PackageId)>,
        features: Vec<(PackageId, Vec<String>)>,
        checksums: Vec<(PackageId, Option<String>)>,
        metadata: Metadata,
        unused_patches: Vec<PackageId>,
        version: ResolveVersion,
        summaries: Vec<(PackageId, Summary)>,
    ) -> (r: Resolve)
        requires
            graph.wf(),
            unique_keys(rep_view(replacements@)),
            unique_keys(feats_view(features@)),
            unique_keys(cks_view(checksums@)),
            unique_keys(summaries_view(summaries@)),
            forall|k: PkgIdView| #[trigger]
                alist_contains(feats_view(features@), k) <==> alist_contains(graph@, k),
            forall|k: PkgIdView| #[trigger]
                alist_contains(cks_view(checksums@), k) <==> alist_contains(graph@, k),
            forall|k: PkgIdView| #[trigger]
                alist_contains(summaries_view(summaries@), k) <==> alist_contains(graph@, k),
        ensures
            r.wf(),
            r@.graph == graph@,
            r@.replacements == alist_map(rep_view(replacements@)),
            r@.reverse_replacements == alist_map(swap_pairs(rep_view(replacements@))),
            r@.features == alist_map(feats_view(features@)),
            r@.checksums == alist_map(cks_view(checksums@)),
            r@.metadata == metadata@,
            r@.unused_patches == ids_view(unused_patches@),
            r@.version == version,
            r@.summaries == alist_map(summaries_view(summaries@)),
            forall|p: PkgIdView| #[trigger]
                r@.public_dependencies.dom().contains(p) <==> alist_contains(graph@, p),
            forall|p: PkgIdView|
                alist_contains(graph@, p) ==> #[trigger] r@.public_dependencies[p]
                    == spec_public_deps_of(graph@, p),
    {
        let mut reverse_replacements: Vec<(PackageId, PackageId)> = Vec::new();
        proof {
            assert(rep_view(reverse_replacements@) =~= Seq::<(PkgIdView, PkgIdView)>::empty());
            assert(swap_pairs(rep_view(replacements@.take(0))) =~= Seq::<
                (PkgIdView, PkgIdView),
            >::empty());
        }
        let mut i: usize = 0;
        while i < replacements.len()
            invariant
                i <= replacements.len(),
                unique_keys(rep_view(reverse_replacements@)),
                alist_map(rep_view(reverse_replacements@)) == alist_map(
                    swap_pairs(rep_view(replacements@.take(i as int))),
                ),
            decreases replacements.len() - i,
        {
            map_insert_id(&mut reverse_replacements, &replacements[i].1, &replacements[i].0);
            proof {
                let pref = swap_pairs(rep_view(replacements@.take(i as int)));
                let ext = swap_pairs(rep_view(replacements@.take(i + 1)));
                assert(ext =~= pref.push((replacements@[i as int].1@, replacements@[i as int].0@)));
                assert(ext.drop_last() =~= pref);
                assert(alist_map(ext) == alist_map(pref).insert(
                    replacements@[i as int].1@,
                    replacements@[i as int].0@,
                ));
            }
            i = i + 1;
        }
        proof {
            assert(replacements@.take(replacements@.len() as int) =~= replacements@);
        }
        let mut public_dependencies: Vec<(PackageId, Vec<PackageId>)> = Vec::new();
        let mut n: usize = 0;
        while n < graph.nodes.len()
            invariant
                graph.wf(),
                n <= graph.nodes.len(),
                public_dependencies@.len() == n,
                forall|m: int|
                    0 <= m < n ==> (#[trigger] pubdeps_view(public_dependencies@)[m]).0 == graph@[
                        m].0,
                forall|m: int|
                    0 <= m < n ==> (#[trigger] pubdeps_view(public_dependencies@)[m]).1
                        == spec_public_deps_of(graph@, graph@[m].0),
            decreases graph.nodes.len() - n,
        {
            let edges = &graph.nodes[n].1;
            let ghost ev = graph@[n as int].1;
            let mut pd: Vec<PackageId> = Vec::new();
            proof {
                assert(ev == edges_view(edges@));
            }
            let mut j: usize = 0;
            while j < edges.len()
                invariant
                    j <= edges.len(),
                    ev == edges_view(edges@),
                    forall|q: PkgIdView| #[trigger]
                        ids_view(pd@).contains(q) <==> exists|m: int|
                            0 <= m < j && (#[trigger] ev[m]).0 == q && has_normal_public(ev[m].1),
                decreases edges.len() - j,
            {
                let ghost pd_before = pd@;
                if any_normal_public(&edges[j].1) {
                    pd.push(edges[j].0.duplicate());
                    proof {
                        assert(ids_view(pd@) =~= ids_view(pd_before).push(ev[j as int].0));
                    }
                }
                proof {
                    assert forall|q: PkgIdView| #[trigger]
                        ids_view(pd@).contains(q) <==> exists|m: int|
                            0 <= m < j + 1 && (#[trigger] ev[m]).0 == q && has_normal_public(
                                ev[m].1,
                            ) by {
                        if ids_view(pd@).contains(q) {
                            let w = choose|w: int|
                                0 <= w < ids_view(pd@).len() && #[trigger] ids_view(pd@)[w] == q;
                            if w < ids_view(pd_before).len() {
                                assert(ids_view(pd_before).contains(q));
                            } else {
                                assert(q == ev[j as int].0);
                                assert(has_normal_public(ev[j as int].1));
                            }
                        }
                        if exists|m: int|
                            0 <= m < j + 1 && (#[trigger] ev[m]).0 == q && has_normal_public(
                                ev[m].1,
                            ) {
                            let m = choose|m: int|
                                0 <= m < j + 1 && (#[trigger] ev[m]).0 == q && has_normal_public(
                                    ev[m].1,
                                );
                            if m < j {
                                assert(ids_view(pd_before).contains(q));
                                let w = choose|w: int|
                                    0 <= w < ids_view(pd_before).len() && #[trigger] ids_view(
                                        pd_before,
                                    )[w] == q;
                                assert(ids_view(pd@)[w] == q);
                            } else {
                                assert(ids_view(pd@)[ids_view(pd@).len() - 1] == q);
                            }
                        }
                    }
                }
                j = j + 1;
            }
            let ghost pds_before = public_dependencies@;
            public_dependencies.push((graph.nodes[n].0.duplicate(), pd));
            proof {
                assert(pubdeps_view(public_dependencies@) =~= pubdeps_view(pds_before).push(
                    (graph@[n as int].0, ids_view(public_dependencies@.last().1@).to_set()),
                ));
                assert(ids_view(public_dependencies@.last().1@).to_set() =~= spec_public_deps_of(
                    graph@,
                    graph@[n as int].0,
                )) by {
                    assert forall|m: int| 0 <= m < n as int implies (#[trigger] graph@[m]).0
                        != graph@[n as int].0 by {}
                    lemma_alist_get_present(graph@, n as int);
                    assert(alist_get(graph@, graph@[n as int].0) == Some(ev));
                }
            }
            n = n + 1;
        }
        let r = Resolve {
            graph,
            replacements,
            reverse_replacements,
            features,
            checksums,
            metadata,
            unused_patches,
            public_dependencies,
            version,
            summaries,
        };
        proof {
            let pv = pubdeps_view(r.public_dependencies@);
            assert forall|a: int, b: int| 0 <= a < b < pv.len() implies (#[trigger] pv[a]).0 != (
            #[trigger] pv[b]).0 by {
                assert(pv[a].0 == r.graph@[a].0);
                assert(pv[b].0 == r.graph@[b].0);
            }
            lemma_alist_contains_same_keys(pv, r.graph@);
            lemma_alist_map_dom(pv);
            lemma_alist_map_index(pv);
            assert forall|p: PkgIdView|
                alist_contains(r.graph@, p) implies #[trigger] r@.public_dependencies[p]
                == spec_public_deps_of(r.graph@, p) by {
                let w = choose|w: int| 0 <= w < r.graph@.len() && (#[trigger] r.graph@[w]).0 == p;
                assert(pv[w].0 == p);
                assert(pv[w].1 == spec_public_deps_of(r.graph@, r.graph@[w].0));
                assert(alist_map(pv)[pv[w].0] == pv[w].1);
            }
        }
        r
    }
}

/// The checksum tables of two resolutions agree on every package they
/// both know; `None` on both sides (a source kind without checksums) is
/// agreement too.
pub open spec fn spec_checksums_ok(
    prev: Map<PkgIdView, Option<Seq<char>>>,
    cur: Map<PkgIdView, Option<Seq<char>>>,
) -> bool {
    forall|k: PkgIdView|
        #[trigger] prev.dom().contains(k) && cur.dom().contains(k) ==> prev[k] == cur[k]
}

/// The package a dependency edge leads to once replacements are applied.
pub open spec fn spec_replaced(m: Map<PkgIdView, PkgIdView>, k: PkgIdView) -> PkgIdView {
    if m.dom().contains(k) {
        m[k]
    } else {
        k
    }
}

impl Resolve {
    /// One representative path from `pkg` up to a graph root, for "why is
    /// this dependency pulled in" diagnostics.
    pub fn path_to_top(&self, pkg: &PackageId) -> (r: Vec<(PackageId, Option<Vec<Dependency>>)>)
        requires
            self.wf(),
        ensures
            r@.len() >= 1,
            crate::graph::path_view(r@)[r@.len() - 1] == (pkg@, None::<Seq<DependencyView>>),
            forall|m: int|
                0 <= m < r@.len() - 1 ==> (#[trigger] crate::graph::path_view(r@)[m]).1 is Some,
            forall|m: int|
                0 <= m < r@.len() - 1 ==> self.graph.spec_edge(
                    (#[trigger] crate::graph::path_view(r@)[m]).0,
                    crate::graph::path_view(r@)[m + 1].0,
                ) == crate::graph::path_view(r@)[m].1,
            crate::graph::path_ids(r@).no_duplicates(),
            forall|n: int|
                0 <= n < self.graph@.len() && alist_get(
                    (#[trigger] self.graph@[n]).1,
                    crate::graph::path_view(r@)[0].0,
                ) is Some ==> crate::graph::path_ids(r@).contains(self.graph@[n].0),
    {
        self.graph.path_to_top(pkg)
    }

    /// Records every offered patch whose package is not in the graph, so
    /// that the next resolution does not fetch it again.
    pub fn register_used_patches(&mut self, patches: &Vec<Summary>)
        requires
            old(self).wf(),
        ensures
            final(self).wf(),
            final(self).graph == old(self).graph,
            final(self).replacements == old(self).replacements,
            final(self).reverse_replacements == old(self).reverse_replacements,
            final(self).features == old(self).features,
            final(self).checksums == old(self).checksums,
            final(self).metadata == old(self).metadata,
            final(self).public_dependencies == old(self).public_dependencies,
            final(self).version == old(self).version,
            final(self).summaries == old(self).summaries,
            final(self)@.unused_patches == old(self)@.unused_patches + patches@.map_values(
                |s: Summary| s.package_id@,
            ).filter(|k: PkgIdView| !alist_contains(old(self).graph@, k)),
    {
        let ghost g = old(self).graph@;
        let ghost pids = patches@.map_values(|s: Summary| s.package_id@);
        let ghost pred = |k: PkgIdView| !alist_contains(g, k);
        proof {
            reveal(Seq::filter);
            assert(pids.take(0) =~= Seq::<PkgIdView>::empty());
            assert(ids_view(self.unused_patches@) =~= ids_view(old(self).unused_patches@)
                + pids.take(0).filter(pred));
        }
        let mut m: usize = 0;
        while m < patches.len()
            invariant
                self.graph == old(self).graph,
                self.replacements == old(self).replacements,
                self.reverse_replacements == old(self).reverse_replacements,
                self.features == old(self).features,
                self.checksums == old(self).checksums,
                self.metadata == old(self).metadata,
                self.public_dependencies == old(self).public_dependencies,
                self.version == old(self).version,
                self.summaries == old(self).summaries,
                m <= patches.len(),
                g == self.graph@,
                pids == patches@.map_values(|s: Summary| s.package_id@),
                pred == (|k: PkgIdView| !alist_contains(g, k)),
                ids_view(self.unused_patches@) == ids_view(old(self).unused_patches@) + pids.take(
                    m as int,
                ).filter(pred),
            decreases patches.len() - m,
        {
            let ghost before = self.unused_patches@;
            if !self.graph.contains(&patches[m].package_id) {
                self.unused_patches.push(patches[m].package_id.duplicate());
                proof {
                    assert(ids_view(self.unused_patches@) =~= ids_view(before).push(
                        pids[m as int],
                    ));
                }
            }
            proof {
                reveal(Seq::filter);
                assert(pids.take(m + 1).drop_last() =~= pids.take(m as int));
                assert(pids.take(m + 1).last() == pids[m as int]);
                if pred(pids[m as int]) {
                    assert(pids.take(m + 1).filter(pred) == pids.take(m as int).filter(pred).push(
                        pids[m as int],
                    ));
                    assert(ids_view(self.unused_patches@) =~= ids_view(old(self).unused_patches@)
                        + pids.take(m + 1).filter(pred));
                } else {
                    assert(pids.take(m + 1).filter(pred) == pids.take(m as int).filter(pred));
                }
            }
            m = m + 1;
        }
        proof {
            assert(pids.take(patches@.len() as int) =~= pids);
        }
    }

    /// Audits a freshly computed resolution (`self`) against the
    /// previously persisted one.  A checksum that appears, disappears or
    /// changes for a package both resolutions know is a hard error and
    /// leaves `self` untouched; otherwise the previous resolution's
    /// metadata bag and lockfile dialect are carried over verbatim.
    pub fn merge_from(&mut self, previous: &Resolve) -> (r: Result<(), ResolveError>)
        requires
            old(self).wf(),
            previous.wf(),
        ensures
            final(self).wf(),
            r is Ok <==> spec_checksums_ok(previous@.checksums, old(self)@.checksums),
            r is Ok ==> final(self).graph == old(self).graph,
            r is Ok ==> final(self).replacements == old(self).replacements,
            r is Ok ==> final(self).reverse_replacements == old(self).reverse_replacements,
            r is Ok ==> final(self).features == old(self).features,
            r is Ok ==> final(self).checksums == old(self).checksums,
            r is Ok ==> final(self).unused_patches == old(self).unused_patches,
            r is Ok ==> final(self).public_dependencies == old(self).public_dependencies,
            r is Ok ==> final(self).summaries == old(self).summaries,
            r is Ok ==> final(self)@.metadata == previous@.metadata,
            r is Ok ==> final(self)@.version == previous@.version,
            r is Err ==> *final(self) == *old(self),
            r matches Err(e) ==> ({
                ||| (e matches ResolveError::ChecksumAppeared { package }
                    && previous@.checksums.dom().contains(package@)
                    && old(self)@.checksums.dom().contains(package@)
                    && previous@.checksums[package@] is None && old(self)@.checksums[package@]
                    is Some)
                ||| (e matches ResolveError::ChecksumDisappeared { package }
                    && previous@.checksums.dom().contains(package@)
                    && old(self)@.checksums.dom().contains(package@)
                    && previous@.checksums[package@] is Some && old(self)@.checksums[package@]
                    is None)
                ||| (e matches ResolveError::ChecksumChanged { package }
                    && previous@.checksums.dom().contains(package@)
                    && old(self)@.checksums.dom().contains(package@)
                    && previous@.checksums[package@] is Some && old(self)@.checksums[package@]
                    is Some && previous@.checksums[package@] != old(self)@.checksums[package@])
            }),
    {
        let ghost pv = cks_view(previous.checksums@);
        let ghost sv = cks_view(self.checksums@);
        let mut m: usize = 0;
        while m < previous.checksums.len()
            invariant
                *self == *old(self),
                self.wf(),
                previous.wf(),
                pv == cks_view(previous.checksums@),
                sv == cks_view(self.checksums@),
                m <= previous.checksums.len(),
                forall|w: int|
                    0 <= w < m && alist_contains(sv, (#[trigger] pv[w]).0) ==> alist_get(
                        sv,
                        pv[w].0,
                    ) == Some(pv[w].1),
            decreases previous.checksums.len() - m,
        {
            let id = &previous.checksums[m].0;
            let ck = &previous.checksums[m].1;
            proof {
                assert(pv[m as int].0 == id@);
            }
            match find_key_index(&self.checksums, id) {
                Some(i) => {
                    proof {
                        assert(sv[i as int].0 == id@);
                        assert forall|w: int| 0 <= w < i implies (#[trigger] sv[w]).0 != id@ by {
                            assert(self.checksums@[w].0@ != id@);
                        }
                        lemma_alist_get_present(sv, i as int);
                        lemma_alist_get_map(sv, id@);
                        lemma_alist_get_map(pv, id@);
                        lemma_alist_map_index(pv);
                        assert(alist_map(pv)[pv[m as int].0] == pv[m as int].1);
                    }
                    let mine = &self.checksums[i].1;
                    let same = match (ck, mine) {
                        (None, None) => true,
                        (Some(a), Some(b)) => *a == *b,
                        _ => false,
                    };
                    if !same {
                        proof {
                            assert(previous@.checksums[id@] == pv[m as int].1);
                            assert(old(self)@.checksums[id@] == sv[i as int].1);
                            assert(pv[m as int].1 != sv[i as int].1);
                            assert(!spec_checksums_ok(previous@.checksums, old(self)@.checksums));
                        }
                        if ck.is_none() {
                            return Err(ResolveError::ChecksumAppeared { package: id.duplicate() });
                        } else if mine.is_none() {
                            return Err(
                                ResolveError::ChecksumDisappeared { package: id.duplicate() },
                            );
                        } else {
                            return Err(ResolveError::ChecksumChanged { package: id.duplicate() });
                        }
                    }
                    proof {
                        assert(pv[m as int].1 == sv[i as int].1);
                    }
                },
                None => {
                    proof {
                        assert forall|w: int| 0 <= w < sv.len() implies (#[trigger] sv[w]).0
                            != id@ by {
                            assert(self.checksums@[w].0@ != id@);
                        }
                        assert(!alist_contains(sv, id@));
                    }
                },
            }
            m = m + 1;
        }
        proof {
            assert(spec_checksums_ok(previous@.checksums, old(self)@.checksums)) by {
                lemma_alist_map_dom(pv);
                lemma_alist_map_dom(sv);
                lemma_alist_map_index(pv);
                assert forall|k: PkgIdView|
                    #[trigger] previous@.checksums.dom().contains(k) && old(
                        self,
                    )@.checksums.dom().contains(k) implies previous@.checksums[k] == old(
                    self,
                )@.checksums[k] by {
                    let w = choose|w: int| 0 <= w < pv.len() && (#[trigger] pv[w]).0 == k;
                    assert(alist_contains(sv, pv[w].0));
                    assert(alist_get(sv, pv[w].0) == Some(pv[w].1));
                    lemma_alist_get_map(sv, k);
                    assert(alist_map(pv)[pv[w].0] == pv[w].1);
                }
            }
        }
        self.metadata = previous.metadata.duplicate();
        self.version = previous.version;
        Ok(())
    }

    /// Whether `k` is a package of this resolution.
    pub fn contains(&self, k: &PackageId) -> (r: bool)
        ensures
            r == alist_contains(self.graph@, k@),
    {
        self.graph.contains(k)
    }

    /// Every package exactly once, dependencies walked before their
    /// dependents.
    pub fn sort(&self) -> (r: Vec<PackageId>)
        requires
            self.wf(),
        ensures
            ids_view(r@).no_duplicates(),
            forall|k: PkgIdView| #[trigger]
                ids_view(r@).contains(k) <==> alist_contains(self.graph@, k),
    {
        self.graph.sort()
    }

    /// The packages of the resolution, in graph insertion order.
    pub fn iter(&self) -> (r: Vec<PackageId>)
        ensures
            ids_view(r@) == crate::graph::graph_keys(self.graph@),
    {
        self.graph.vertices()
    }

    /// The outgoing edges of `pkg` with each neighbor replaced by its
    /// configured stand-in, when one exists.
    pub fn deps(&self, pkg: &PackageId) -> (r: Vec<(PackageId, Vec<Dependency>)>)
        requires
            self.wf(),
        ensures
            edges_view(r@) == match self.graph.spec_edges(pkg@) {
                Some(es) => es.map_values(
                    |e: (PkgIdView, Seq<DependencyView>)|
                        (spec_replaced(self@.replacements, e.0), e.1),
                ),
                None => Seq::<(PkgIdView, Seq<DependencyView>)>::empty(),
            },
    {
        let src = self.graph.edge_list(pkg);
        let ghost es = edges_view(src@);
        let ghost subst = |e: (PkgIdView, Seq<DependencyView>)|
            (spec_replaced(self@.replacements, e.0), e.1);
        let mut out: Vec<(PackageId, Vec<Dependency>)> = Vec::new();
        proof {
            assert(edges_view(out@) =~= es.take(0).map_values(subst));
        }
        let mut i: usize = 0;
        while i < src.len()
            invariant
                self.wf(),
                i <= src.len(),
                es == edges_view(src@),
                subst == (|e: (PkgIdView, Seq<DependencyView>)|
                    (spec_replaced(self@.replacements, e.0), e.1)),
                edges_view(out@) == es.take(i as int).map_values(subst),
            decreases src.len() - i,
        {
            let key = match self.replacement(&src[i].0) {
                Some(rep) => rep,
                None => src[i].0.duplicate(),
            };
            proof {
                assert(key@ == spec_replaced(self@.replacements, es[i as int].0));
            }
            out.push((key, crate::types::dup_dependencies(&src[i].1)));
            proof {
                assert(es.take(i + 1).map_values(subst) =~= es.take(i as int).map_values(
                    subst,
                ).push(subst(es[i as int])));
                assert(edges_view(out@) =~= edges_view(out@.drop_last()).push(
                    (out@.last().0@, deps_view(out@.last().1@)),
                ));
            }
            i = i + 1;
        }
        proof {
            assert(es.take(es.len() as int) =~= es);
        }
        out
    }

    /// The outgoing edges of `pkg` as declared, with no replacement
    /// applied.
    pub fn deps_not_replaced(&self, pkg: &PackageId) -> (r: Vec<(PackageId, Vec<Dependency>)>)
        ensures
            edges_view(r@) == match self.graph.spec_edges(pkg@) {
                Some(es) => es,
                None => Seq::<(PkgIdView, Seq<DependencyView>)>::empty(),
            },
    {
        self.graph.edge_list(pkg)
    }

    /// The configured stand-in for `pkg`, if the replacement table has
    /// one.
    pub fn replacement(&self, pkg: &PackageId) -> (r: Option<PackageId>)
        requires
            self.wf(),
        ensures
            match r {
                Some(p) => self@.replacements.dom().contains(pkg@) && p@ == self@.replacements[
                    pkg@],
                None => !self@.replacements.dom().contains(pkg@),
            },
    {
        let ghost rv = rep_view(self.replacements@);
        match find_key_index(&self.replacements, pkg) {
            Some(i) => {
                proof {
                    assert(rv[i as int].0 == pkg@);
                    lemma_alist_map_dom(rv);
                    lemma_alist_map_index(rv);
                    assert(alist_map(rv)[rv[i as int].0] == rv[i as int].1);
                }
                Some(self.replacements[i].1.duplicate())
            },
            None => {
                proof {
                    assert forall|w: int| 0 <= w < rv.len() implies (#[trigger] rv[w]).0 != pkg@ by {
                        assert(self.replacements@[w].0@ != pkg@);
                    }
                    lemma_alist_map_dom(rv);
                }
                None
            },
        }
    }

    /// The replacement table.
    pub fn replacements(&self) -> (r: &Vec<(PackageId, PackageId)>)
        ensures
            rep_view(r@) == rep_view(self.replacements@),
    {
        &self.replacements
    }

    /// The features enabled for `pkg`; empty when the package has none
    /// recorded.
    pub fn features(&self, pkg: &PackageId) -> (r: Vec<String>)
        requires
            self.wf(),
        ensures
            strings_view(r@) == if self@.features.dom().contains(pkg@) {
                self@.features[pkg@]
            } else {
                Seq::<Seq<char>>::empty()
            },
    {
        let ghost fv = feats_view(self.features@);
        match find_key_index(&self.features, pkg) {
            Some(i) => {
                proof {
                    assert(fv[i as int].0 == pkg@);
                    lemma_alist_map_dom(fv);
                    lemma_alist_map_index(fv);
                    assert(alist_map(fv)[fv[i as int].0] == fv[i as int].1);
                }
                crate::types::dup_strings(&self.features[i].1)
            },
            None => {
                proof {
                    assert forall|w: int| 0 <= w < fv.len() implies (#[trigger] fv[w]).0 != pkg@ by {
                        assert(self.features@[w].0@ != pkg@);
                    }
                    lemma_alist_map_dom(fv);
                    assert(strings_view(Seq::<String>::empty()) =~= Seq::<Seq<char>>::empty());
                }
                Vec::new()
            },
        }
    }

    /// An owned copy of the whole feature table.
    pub fn features_clone(&self) -> (r: Vec<(PackageId, Vec<String>)>)
        ensures
            feats_view(r@) == feats_view(self.features@),
    {
        let mut out: Vec<(PackageId, Vec<String>)> = Vec::new();
        let mut i: usize = 0;
        while i < self.features.len()
            invariant
                i <= self.features.len(),
                feats_view(out@) == feats_view(self.features@.take(i as int)),
            decreases self.features.len() - i,
        {
            out.push((self.features[i].0.duplicate(), crate::types::dup_strings(
                &self.features[i].1,
            )));
            proof {
                assert(feats_view(self.features@.take(i + 1)) =~= feats_view(
                    self.features@.take(i as int),
                ).push((self.features@[i as int].0@, strings_view(self.features@[i as int].1@))));
                assert(feats_view(out@) =~= feats_view(out@.drop_last()).push(
                    (out@.last().0@, strings_view(out@.last().1@)),
                ));
            }
            i = i + 1;
        }
        proof {
            assert(self.features@.take(self.features@.len() as int) =~= self.features@);
        }
        out
    }

    /// Whether `dep` is a public dependency of `pkg`.  `pkg` must be a
    /// package of the graph: asking about an unknown package is a caller
    /// bug, not a recoverable error.
    pub fn is_public_dep(&self, pkg: &PackageId, dep: &PackageId) -> (r: bool)
        requires
            self.wf(),
            alist_contains(self.graph@, pkg@),
        ensures
            r == self@.public_dependencies[pkg@].contains(dep@),
    {
        let ghost dv = pubdeps_view(self.public_dependencies@);
        match find_key_index(&self.public_dependencies, pkg) {
            Some(i) => {
                proof {
                    assert(dv[i as int].0 == pkg@);
                    lemma_alist_map_index(dv);
                    assert(alist_map(dv)[dv[i as int].0] == dv[i as int].1);
                }
                let r = crate::types::contains_id(&self.public_dependencies[i].1, dep);
                proof {
                    assert(dv[i as int].1 == ids_view(self.public_dependencies@[i as int].1@).to_set());
                    assert(ids_view(self.public_dependencies@[i as int].1@).to_set().contains(dep@)
                        <==> ids_view(self.public_dependencies@[i as int].1@).contains(dep@));
                }
                r
            },
            None => {
                proof {
                    assert forall|w: int| 0 <= w < dv.len() implies (#[trigger] dv[w]).0 != pkg@ by {
                        assert(self.public_dependencies@[w].0@ != pkg@);
                    }
                    assert(!alist_contains(dv, pkg@));
                    assert(false);
                }
                unreached()
            },
        }
    }

    /// The patches that matched nothing.
    pub fn unused_patches(&self) -> (r: &Vec<PackageId>)
        ensures
            ids_view(r@) == self@.unused_patches,
    {
        &self.unused_patches
    }

    /// The checksum table.
    pub fn checksums(&self) -> (r: &Vec<(PackageId, Option<String>)>)
        ensures
            cks_view(r@) == cks_view(self.checksums@),
    {
        &self.checksums
    }

    /// The preserved lockfile metadata bag.
    pub fn metadata(&self) -> (r: &Metadata)
        ensures
            r@ == self@.metadata,
    {
        &self.metadata
    }

    /// The lockfile dialect this resolution serializes as.
    pub fn version(&self) -> (r: ResolveVersion)
        ensures
            r == self@.version,
    {
        self.version
    }

    /// Chooses the lockfile dialect to serialize as.
    pub fn set_version(&mut self, version: ResolveVersion)
        ensures
            final(self).graph == old(self).graph,
            final(self).replacements == old(self).replacements,
            final(self).reverse_replacements == old(self).reverse_replacements,
            final(self).features == old(self).features,
            final(self).checksums == old(self).checksums,
            final(self).metadata == old(self).metadata,
            final(self).unused_patches == old(self).unused_patches,
            final(self).public_dependencies == old(self).public_dependencies,
            final(self).summaries == old(self).summaries,
            final(self)@.version == version,
    {
        self.version = version;
    }

    /// The declared interface of `pkg_id`, which must be a package of the
    /// resolution.
    pub fn summary(&self, pkg_id: &PackageId) -> (r: &Summary)
        requires
            self.wf(),
            alist_contains(self.graph@, pkg_id@),
        ensures
            r@ == self@.summaries[pkg_id@],
    {
        let ghost sv = summaries_view(self.summaries@);
        match find_key_index(&self.summaries, pkg_id) {
            Some(i) => {
                proof {
                    assert(sv[i as int].0 == pkg_id@);
                    lemma_alist_map_index(sv);
                    assert(alist_map(sv)[sv[i as int].0] == sv[i as int].1);
                }
                &self.summaries[i].1
            },
            None => {
                proof {
                    assert forall|w: int| 0 <= w < sv.len() implies (#[trigger] sv[w]).0
                        != pkg_id@ by {
                        assert(self.summaries@[w].0@ != pkg_id@);
                    }
                    assert(!alist_contains(sv, pkg_id@));
                    assert(false);
                }
                unreached()
            },
        }
    }
}

/// The identifier a consumer's source code uses for one declared edge:
/// the explicit rename with `-` replaced by `_`, or, without a rename,
/// the target's crate name.
pub open spec fn spec_effective_name(d: DependencyView, crate_name: Seq<char>) -> Seq<char> {
    match d.explicit_name_in_toml {
        Some(n) => crate::names::underscore_name(n),
        None => crate_name,
    }
}

/// The first explicit rename among the declarations, if any.
pub open spec fn spec_first_explicit(ds: Seq<DependencyView>) -> Option<Seq<char>>
    decreases ds.len(),
{
    if ds.len() == 0 {
        None
    } else {
        match ds[0].explicit_name_in_toml {
            Some(n) => Some(n),
            None => spec_first_explicit(ds.drop_first()),
        }
    }
}

/// Declarations without an explicit rename do not decide
/// `spec_first_explicit`.
proof fn lemma_first_explicit_skip(ds: Seq<DependencyView>, j: int)
    requires
        0 <= j <= ds.len(),
        forall|m: int| 0 <= m < j ==> (#[trigger] ds[m]).explicit_name_in_toml is None,
    ensures
        spec_first_explicit(ds) == spec_first_explicit(ds.skip(j)),
    decreases j,
{
    if j > 0 {
        assert(ds[0].explicit_name_in_toml is None);
        assert(ds.skip(0) =~= ds);
        assert(ds.drop_first().skip(j - 1) =~= ds.skip(j));
        assert forall|m: int| 0 <= m < j - 1 implies (#[trigger] ds.drop_first()[
        m]).explicit_name_in_toml is None by {
            assert(ds[m + 1].explicit_name_in_toml is None);
        }
        lemma_first_explicit_skip(ds.drop_first(), j - 1);
    } else {
        assert(ds.skip(0) =~= ds);
    }
}

/// A name with an optional exact version, used to pick one package out
/// of a resolution.
#[derive(Clone, Debug)]
pub struct PackageIdSpec {
    pub name: String,
    pub version: Option<crate::types::Version>,
}

/// Ghost image of a [`PackageIdSpec`].
pub struct PackageIdSpecView {
    pub name: Seq<char>,
    pub version: Option<crate::types::Version>,
}

impl View for PackageIdSpec {
    type V = PackageIdSpecView;

    open spec fn view(&self) -> PackageIdSpecView {
        PackageIdSpecView { name: self.name@, version: self.version }
    }
}

/// Whether a package identity satisfies a spec.
pub open spec fn spec_id_matches(s: PackageIdSpecView, id: PkgIdView) -> bool {
    id.name == s.name && (s.version is None || s.version == Some(id.version))
}

impl Resolve {
    /// The declared edge set between `from` and `to`, looked up through
    /// the original package when `to` is the target of a replacement
    /// (the edge was declared against the original); `None` when no edge
    /// exists at all, which callers treat as an internal inconsistency.
    pub open spec fn spec_listed_deps(&self, from: PkgIdView, to: PkgIdView) -> Option<
        Seq<DependencyView>,
    > {
        if self@.reverse_replacements.dom().contains(to) && graph_edge(
            self.graph@,
            from,
            self@.reverse_replacements[to],
        ) is Some {
            graph_edge(self.graph@, from, self@.reverse_replacements[to])
        } else {
            graph_edge(self.graph@, from, to)
        }
    }

    /// The edge set that decides naming: empty for a self-dependency,
    /// the listed edge set otherwise.
    pub open spec fn spec_extern_deps(&self, from: PkgIdView, to: PkgIdView) -> Seq<
        DependencyView,
    > {
        if from == to {
            Seq::empty()
        } else {
            match self.spec_listed_deps(from, to) {
                Some(ds) => ds,
                None => Seq::empty(),
            }
        }
    }

    /// The declared edge set between `from` and `to`; `to` is first
    /// traced back through the replacement table, since an edge is
    /// declared against the original package, not its stand-in.  An edge
    /// must exist: asking about an unconnected pair is a caller bug.
    pub fn dependencies_listed(&self, from: &PackageId, to: &PackageId) -> (r: &Vec<Dependency>)
        requires
            self.wf(),
            self.spec_listed_deps(from@, to@) is Some,
        ensures
            Some(deps_view(r@)) == self.spec_listed_deps(from@, to@),
    {
        let ghost rv = rep_view(self.reverse_replacements@);
        match find_key_index(&self.reverse_replacements, to) {
            Some(i) => {
                proof {
                    assert(rv[i as int].0 == to@);
                    lemma_alist_map_dom(rv);
                    lemma_alist_map_index(rv);
                    assert(alist_map(rv)[rv[i as int].0] == rv[i as int].1);
                    assert(self@.reverse_replacements[to@] == self.reverse_replacements@[
                        i as int].1@);
                }
                match self.graph.edge(from, &self.reverse_replacements[i].1) {
                    Some(v) => {
                        return v;
                    },
                    None => {},
                }
            },
            None => {
                proof {
                    assert forall|w: int| 0 <= w < rv.len() implies (#[trigger] rv[w]).0 != to@ by {
                        assert(self.reverse_replacements@[w].0@ != to@);
                    }
                    lemma_alist_map_dom(rv);
                    assert(!self@.reverse_replacements.dom().contains(to@));
                }
            },
        }
        match self.graph.edge(from, to) {
            Some(v) => v,
            None => {
                proof {
                    assert(false);
                }
                unreached()
            },
        }
    }

    /// The identifier `from`'s source code uses for the build target
    /// `to_target` of its dependency `to`, plus the first explicit
    /// rename, if any.  A self-dependency uses the empty edge set and
    /// falls back to the target's crate name.  Two declarations with
    /// different effective names are an error: one physical dependency
    /// cannot carry two identifiers.
    pub fn extern_crate_name_and_dep_name(
        &self,
        from: &PackageId,
        to: &PackageId,
        to_target: &crate::types::Target,
    ) -> (r: Result<(String, Option<String>), ResolveError>)
        requires
            self.wf(),
            from@ == to@ || self.spec_listed_deps(from@, to@) is Some,
        ensures
            ({
                let ds = self.spec_extern_deps(from@, to@);
                let cn = crate::names::underscore_name(to_target@.name);
                &&& (r is Ok <==> (forall|i: int, j: int|
                    0 <= i < ds.len() && 0 <= j < ds.len() ==> spec_effective_name(
                        #[trigger] ds[i],
                        cn,
                    ) == spec_effective_name(#[trigger] ds[j], cn)))
                &&& (r matches Ok(p) ==> p.0@ == if ds.len() == 0 {
                    cn
                } else {
                    spec_effective_name(ds[0], cn)
                })
                &&& (r matches Ok(p) ==> crate::types::opt_str_view(p.1) == spec_first_explicit(
                    ds,
                ))
                &&& (r matches Err(e) ==> (e matches ResolveError::MultipleNames {
                    from: f,
                    to: t,
                } && f@ == from@ && t@ == to@))
            }),
    {
        let empty_deps: Vec<Dependency> = Vec::new();
        let deps: &Vec<Dependency> = if from == to {
            &empty_deps
        } else {
            self.dependencies_listed(from, to)
        };
        let ghost ds = self.spec_extern_deps(from@, to@);
        let ghost cn = crate::names::underscore_name(to_target@.name);
        proof {
            if from@ == to@ {
                assert(deps_view(empty_deps@) =~= Seq::<DependencyView>::empty());
            }
            assert(deps_view(deps@) == ds);
        }
        let crate_name = to_target.crate_name();
        let n0: String = if deps.len() == 0 {
            crate_name.clone()
        } else {
            effective_name_of(&deps[0], &crate_name)
        };
        let mut i: usize = 0;
        while i < deps.len()
            invariant
                deps_view(deps@) == ds,
                ds == self.spec_extern_deps(from@, to@),
                cn == crate::names::underscore_name(to_target@.name),
                cn == crate_name@,
                i <= deps.len(),
                n0@ == if ds.len() == 0 {
                    cn
                } else {
                    spec_effective_name(ds[0], cn)
                },
                forall|m: int| 0 <= m < i ==> spec_effective_name(#[trigger] ds[m], cn) == n0@,
            decreases deps.len() - i,
        {
            let ni = effective_name_of(&deps[i], &crate_name);
            if ni == n0 {
            } else {
                proof {
                    assert(spec_effective_name(ds[i as int], cn) != n0@);
                    assert(ds.len() > 0);
                    assert(spec_effective_name(ds[0], cn) == n0@);
                    assert(!(forall|a: int, b: int|
                        0 <= a < ds.len() && 0 <= b < ds.len() ==> spec_effective_name(
                            #[trigger] ds[a],
                            cn,
                        ) == spec_effective_name(#[trigger] ds[b], cn))) by {
                        if (forall|a: int, b: int|
                            0 <= a < ds.len() && 0 <= b < ds.len() ==> spec_effective_name(
                                #[trigger] ds[a],
                                cn,
                            ) == spec_effective_name(#[trigger] ds[b], cn)) {
                            assert(spec_effective_name(ds[0], cn) == spec_effective_name(
                                ds[i as int],
                                cn,
                            ));
                        }
                    }
                }
                return Err(
                    ResolveError::MultipleNames { from: from.duplicate(), to: to.duplicate() },
                );
            }
            i = i + 1;
        }
        let mut dep_name: Option<String> = None;
        let mut j: usize = 0;
        while j < deps.len()
            invariant
                deps_view(deps@) == ds,
                ds == self.spec_extern_deps(from@, to@),
                j <= deps.len(),
                match dep_name {
                    None => forall|m: int|
                        0 <= m < j ==> (#[trigger] ds[m]).explicit_name_in_toml is None,
                    Some(s) => Some(s@) == spec_first_explicit(ds),
                },
            decreases deps.len() - j,
        {
            if dep_name.is_none() {
                match &deps[j].explicit_name_in_toml {
                    Some(nm) => {
                        proof {
                            lemma_first_explicit_skip(ds, j as int);
                            assert(ds.skip(j as int).len() > 0);
                            assert(ds.skip(j as int)[0] == ds[j as int]);
                        }
                        dep_name = Some(nm.clone());
                    },
                    None => {},
                }
            }
            j = j + 1;
        }
        proof {
            if dep_name is None {
                lemma_first_explicit_skip(ds, ds.len() as int);
                assert(ds.skip(ds.len() as int) =~= Seq::<DependencyView>::empty());
            }
        }
        Ok((n0, dep_name))
    }

    /// The package of the resolution that `spec` picks out.  Exactly one
    /// package must match: none at all and more than one are each an
    /// error naming the spec.
    pub fn query(&self, spec: &PackageIdSpec) -> (r: Result<PackageId, ResolveError>)
        requires
            self.wf(),
        ensures
            r matches Ok(p) ==> alist_contains(self.graph@, p@) && spec_id_matches(spec@, p@),
            r matches Ok(p) ==> forall|k: PkgIdView|
                #[trigger] alist_contains(self.graph@, k) && spec_id_matches(spec@, k) ==> k
                    == p@,
            r matches Err(e) ==> ({
                ||| (e matches ResolveError::SpecNotFound { name } && name@ == spec@.name
                    && (forall|k: PkgIdView|
                        #[trigger] alist_contains(self.graph@, k) ==> !spec_id_matches(spec@, k)))
                ||| (e matches ResolveError::SpecAmbiguous { name } && name@ == spec@.name
                    && (exists|k1: PkgIdView, k2: PkgIdView|
                        #[trigger] alist_contains(self.graph@, k1) && #[trigger] alist_contains(
                            self.graph@,
                            k2,
                        ) && spec_id_matches(spec@, k1) && spec_id_matches(spec@, k2) && k1 != k2))
            }),
    {
        let mut found: Option<usize> = None;
        let mut n: usize = 0;
        while n < self.graph.nodes.len()
            invariant
                self.wf(),
                n <= self.graph.nodes.len(),
                match found {
                    Some(w) => w < n && spec_id_matches(spec@, self.graph@[w as int].0) && forall|
                        m: int,
                    |
                        0 <= m < n && m != w ==> !spec_id_matches(
                            spec@,
                            (#[trigger] self.graph@[m]).0,
                        ),
                    None => forall|m: int|
                        0 <= m < n ==> !spec_id_matches(spec@, (#[trigger] self.graph@[m]).0),
                },
            decreases self.graph.nodes.len() - n,
        {
            let id = &self.graph.nodes[n].0;
            let name_ok = id.name == spec.name;
            let version_ok = match &spec.version {
                None => true,
                Some(v) => *v == id.version,
            };
            proof {
                assert(self.graph@[n as int].0 == id@);
            }
            if name_ok && version_ok {
                match found {
                    Some(w) => {
                        proof {
                            assert(self.graph@[w as int].0 != self.graph@[n as int].0);
                            assert(alist_contains(self.graph@, self.graph@[w as int].0));
                            assert(alist_contains(self.graph@, self.graph@[n as int].0));
                        }
                        return Err(ResolveError::SpecAmbiguous { name: spec.name.clone() });
                    },
                    None => {
                        found = Some(n);
                    },
                }
            }
            n = n + 1;
        }
        match found {
            Some(w) => {
                proof {
                    assert(alist_contains(self.graph@, self.graph@[w as int].0));
                    assert forall|k: PkgIdView|
                        #[trigger] alist_contains(self.graph@, k) && spec_id_matches(
                            spec@,
                            k,
                        ) implies k == self.graph@[w as int].0 by {
                        let m = choose|m: int|
                            0 <= m < self.graph@.len() && (#[trigger] self.graph@[m]).0 == k;
                        if m != w {
                            assert(!spec_id_matches(spec@, self.graph@[m].0));
                        }
                    }
                }
                Ok(self.graph.nodes[w].0.duplicate())
            },
            None => {
                proof {
                    assert forall|k: PkgIdView|
                        #[trigger] alist_contains(self.graph@, k) implies !spec_id_matches(
                        spec@,
                        k,
                    ) by {
                        let m = choose|m: int|
                            0 <= m < self.graph@.len() && (#[trigger] self.graph@[m]).0 == k;
                        assert(!spec_id_matches(spec@, self.graph@[m].0));
                    }
                }
                Err(ResolveError::SpecNotFound { name: spec.name.clone() })
            },
        }
    }

    /// Resolves each spec to its package; the first spec that fails
    /// decides the error.
    pub fn specs_to_ids(&self, specs: &Vec<PackageIdSpec>) -> (r: Result<
        Vec<PackageId>,
        ResolveError,
    >)
        requires
            self.wf(),
        ensures
            r matches Ok(v) ==> v@.len() == specs@.len(),
            r matches Ok(v) ==> forall|i: int|
                0 <= i < specs@.len() ==> alist_contains(self.graph@, #[trigger] ids_view(v@)[i])
                    && spec_id_matches(specs@[i]@, ids_view(v@)[i]),
            r matches Err(e) ==> (e is SpecNotFound || e is SpecAmbiguous),
    {
        let mut out: Vec<PackageId> = Vec::new();
        let mut i: usize = 0;
        while i < specs.len()
            invariant
                self.wf(),
                i <= specs.len(),
                out@.len() == i,
                forall|m: int|
                    0 <= m < i ==> alist_contains(self.graph@, #[trigger] ids_view(out@)[m])
                        && spec_id_matches(specs@[m]@, ids_view(out@)[m]),
            decreases specs.len() - i,
        {
            let ghost before = out@;
            match self.query(&specs[i]) {
                Ok(p) => {
                    out.push(p);
                    proof {
                        assert(ids_view(out@) =~= ids_view(before).push(out@.last()@));
                    }
                },
                Err(e) => {
                    return Err(e);
                },
            }
            i = i + 1;
        }
        Ok(out)
    }
}

/// For every constructed resolution whose replacement table sends no two
/// originals to the same stand-in, following `replacements` and then the
/// derived `reverse_replacements` returns to the starting package.
/// `Resolve::new` guarantees `reverse_replacements` is exactly
/// `alist_map(swap_pairs(..))` of the replacement pairs.
pub proof fn lemma_replacement_inverse(pairs: Seq<(PkgIdView, PkgIdView)>)
    requires
        unique_keys(pairs),
        forall|i: int, j: int|
            0 <= i < j < pairs.len() ==> (#[trigger] pairs[i]).1 != (#[trigger] pairs[j]).1,
    ensures
        forall|p: PkgIdView| #[trigger]
            alist_map(pairs).dom().contains(p) ==> alist_map(swap_pairs(pairs)).dom().contains(
                alist_map(pairs)[p],
            ) && alist_map(swap_pairs(pairs))[alist_map(pairs)[p]] == p,
{
    let sw = swap_pairs(pairs);
    assert(unique_keys(sw)) by {
        assert forall|a: int, b: int| 0 <= a < b < sw.len() implies (#[trigger] sw[a]).0 != (
        #[trigger] sw[b]).0 by {
            assert(pairs[a].1 != pairs[b].1);
        }
    }
    lemma_alist_map_dom(pairs);
    lemma_alist_map_index(pairs);
    lemma_alist_map_dom(sw);
    lemma_alist_map_index(sw);
    assert forall|p: PkgIdView| #[trigger]
        alist_map(pairs).dom().contains(p) implies alist_map(sw).dom().contains(
        alist_map(pairs)[p],
    ) && alist_map(sw)[alist_map(pairs)[p]] == p by {
        let i = choose|i: int| 0 <= i < pairs.len() && (#[trigger] pairs[i]).0 == p;
        assert(alist_map(pairs)[pairs[i].0] == pairs[i].1);
        assert(sw[i] == (pairs[i].1, pairs[i].0));
        assert(alist_contains(sw, pairs[i].1));
        assert(alist_map(sw)[sw[i].0] == sw[i].1);
    }
}

/// Reconciling a resolution against one with the same checksum table —
/// itself in particular — always passes the checksum audit: every entry
/// is compared with itself.
pub proof fn lemma_merge_with_self_ok(cks: Map<PkgIdView, Option<Seq<char>>>)
    ensures
        spec_checksums_ok(cks, cks),
{
}

/// The identifier a consumer uses for one declared edge.
fn effective_name_of(d: &Dependency, crate_name: &String) -> (r: String)
    ensures
        r@ == spec_effective_name(d@, crate_name@),
{
    match &d.explicit_name_in_toml {
        Some(n) => crate::names::to_underscore_name(n.as_str()),
        None => crate_name.clone(),
    }
}

/// Whether some declaration in the list is a normal, public dependency.
fn any_normal_public(ds: &Vec<Dependency>) -> (r: bool)
    ensures
        r == has_normal_public(deps_view(ds@)),
{
    let mut i: usize = 0;
    while i < ds.len()
        invariant
            i <= ds.len(),
            forall|m: int|
                0 <= m < i ==> !((#[trigger] deps_view(ds@)[m]).kind == DepKind::Normal
                    && deps_view(ds@)[m].public),
        decreases ds.len() - i,
    {
        let is_normal = match ds[i].kind {
            DepKind::Normal => true,
            _ => false,
        };
        if is_normal && ds[i].public {
            proof {
                assert((deps_view(ds@)[i as int]).kind == DepKind::Normal && deps_view(
                    ds@,
                )[i as int].public);
            }
            return true;
        }
        i = i + 1;
    }
    false
}

/// Puts `k -> v` into the table, replacing the entry for `k` if one
/// exists; reads as a map insertion.
fn map_insert_id(m: &mut Vec<(PackageId, PackageId)>, k: &PackageId, v: &PackageId)
    requires
        unique_keys(rep_view(old(m)@)),
    ensures
        unique_keys(rep_view(final(m)@)),
        alist_map(rep_view(final(m)@)) == alist_map(rep_view(old(m)@)).insert(k@, v@),
{
    match find_key_index(m, k) {
        Some(i) => {
            let _removed = m.remove(i);
            m.insert(i, (k.duplicate(), v.duplicate()));
            proof {
                let before = rep_view(old(m)@);
                assert(rep_view(m@) =~~= before.update(i as int, (before[i as int].0, v@)));
                lemma_alist_map_update(before, i as int, v@);
                assert(before[i as int].0 == k@);
                assert forall|a: int, b: int|
                    0 <= a < b < rep_view(m@).len() implies (#[trigger] rep_view(m@)[a]).0 != (
                #[trigger] rep_view(m@)[b]).0 by {
                    assert(rep_view(m@)[a].0 == before[a].0);
                    assert(rep_view(m@)[b].0 == before[b].0);
                    assert(before[a].0 != before[b].0);
                }
            }
        },
        None => {
            m.push((k.duplicate(), v.duplicate()));
            proof {
                let before = rep_view(old(m)@);
                assert(rep_view(m@) =~= before.push((k@, v@)));
                assert(rep_view(m@).drop_last() =~= before);
                assert forall|a: int, b: int|
                    0 <= a < b < rep_view(m@).len() implies (#[trigger] rep_view(m@)[a]).0 != (
                #[trigger] rep_view(m@)[b]).0 by {
                    if b < rep_view(m@).len() - 1 {
                        assert(rep_view(m@)[a].0 == before[a].0);
                        assert(rep_view(m@)[b].0 == before[b].0);
                        assert(before[a].0 != before[b].0);
                    } else {
                        assert(rep_view(m@)[a].0 == before[a].0);
                        assert(old(m)@[a].0@ != k@);
                    }
                }
            }
        },
    }
}

} // verus!
