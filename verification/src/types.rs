//! Value types of the resolved dependency graph: package identities,
//! declared dependency edges, build targets, and package summaries.
//!
//! Each executable type has a view: a ghost value built from sequences and
//! plain data, which the contracts of the crate speak about.  Strings are
//! viewed as `Seq<char>`, so two identities are "the same" exactly when
//! their views are equal.

use vstd::prelude::*;

verus! {

/// A semantic version, ordered by major, then minor, then patch.
#[derive(Clone, Copy, Debug, PartialEq, Eq, Structural)]
pub struct Version {
    pub major: u64,
    pub minor: u64,
    pub patch: u64,
}

/// Identity of one resolved package: name, version and source location.
/// The source location is kept as opaque text (a URL plus source kind);
/// identities compare structurally.
#[derive(Clone, Debug)]
pub struct PackageId {
    pub name: String,
    pub version: Version,
    pub source_id: String,
}

/// Ghost image of a [`PackageId`].
pub struct PkgIdView {
    pub name: Seq<char>,
    pub version: Version,
    pub source_id: Seq<char>,
}

impl View for PackageId {
    type V = PkgIdView;

    open spec fn view(&self) -> PkgIdView {
        PkgIdView { name: self.name@, version: self.version, source_id: self.source_id@ }
    }
}

impl PackageId {
    /// An owned copy with the same view.
    pub fn duplicate(&self) -> (r: PackageId)
        ensures
            r@ == self@,
    {
        PackageId {
            name: self.name.clone(),
            version: self.version,
            source_id: self.source_id.clone(),
        }
    }
}

impl PartialEq for PackageId {
    fn eq(&self, other: &PackageId) -> (r: bool) {
        self.name == other.name && self.version == other.version && self.source_id
            == other.source_id
    }
}

impl vstd::std_specs::cmp::PartialEqSpecImpl for PackageId {
    open spec fn obeys_eq_spec() -> bool {
        true
    }

    open spec fn eq_spec(&self, other: &PackageId) -> bool {
        self@ == other@
    }
}

/// The category a dependency edge was declared under.
#[derive(Clone, Copy, Debug, PartialEq, Eq, Structural)]
pub enum DepKind {
    Normal,
    Development,
    Build,
}

/// The rank of a dependency category in the order the categories are
/// declared, used when dependency records are sorted for display.
pub open spec fn dep_kind_rank(k: DepKind) -> int {
    match k {
        DepKind::Normal => 0,
        DepKind::Development => 1,
        DepKind::Build => 2,
    }
}

/// One requested artifact kind of an artifact dependency.
#[derive(Clone, Debug)]
pub enum ArtifactKind {
    /// A static library build product.
    Staticlib,
    /// A dynamic C-ABI library build product.
    Cdylib,
    /// Every executable the package builds.
    AllBinaries,
    /// One executable, selected by name.
    SelectedBinary(String),
}

/// Ghost image of an [`ArtifactKind`].
pub enum ArtifactKindView {
    Staticlib,
    Cdylib,
    AllBinaries,
    SelectedBinary(Seq<char>),
}

impl View for ArtifactKind {
    type V = ArtifactKindView;

    open spec fn view(&self) -> ArtifactKindView {
        match self {
            ArtifactKind::Staticlib => ArtifactKindView::Staticlib,
            ArtifactKind::Cdylib => ArtifactKindView::Cdylib,
            ArtifactKind::AllBinaries => ArtifactKindView::AllBinaries,
            ArtifactKind::SelectedBinary(n) => ArtifactKindView::SelectedBinary(n@),
        }
    }
}

/// The target triple an artifact dependency is built for, when it is built
/// independently of its consumer.
#[derive(Clone, Debug)]
pub enum ArtifactTarget {
    /// A build dependency compiled for the host's selected target.
    BuildDependencyAssumeTarget,
    /// A fixed target triple.
    Force(String),
}

/// Ghost image of an [`ArtifactTarget`].
pub enum ArtifactTargetView {
    BuildDependencyAssumeTarget,
    Force(Seq<char>),
}

impl View for ArtifactTarget {
    type V = ArtifactTargetView;

    open spec fn view(&self) -> ArtifactTargetView {
        match self {
            ArtifactTarget::BuildDependencyAssumeTarget =>
                ArtifactTargetView::BuildDependencyAssumeTarget,
            ArtifactTarget::Force(t) => ArtifactTargetView::Force(t@),
        }
    }
}

/// The artifact specification of a dependency edge: which build products
/// are consumed, whether the library is linked alongside them, and an
/// optional target override.
#[derive(Clone, Debug)]
pub struct Artifact {
    pub kinds: Vec<ArtifactKind>,
    pub lib: bool,
    pub target: Option<ArtifactTarget>,
}

/// Ghost image of an [`Artifact`].
pub struct ArtifactView {
    pub kinds: Seq<ArtifactKindView>,
    pub lib: bool,
    pub target: Option<ArtifactTargetView>,
}

impl View for Artifact {
    type V = ArtifactView;

    open spec fn view(&self) -> ArtifactView {
        ArtifactView {
            kinds: self.kinds@.map_values(|k: ArtifactKind| k@),
            lib: self.lib,
            target: match self.target {
                Some(t) => Some(t@),
                None => None,
            },
        }
    }
}

/// One declared dependency edge from a manifest.
#[derive(Clone, Debug)]
pub struct Dependency {
    /// The name of the package depended on.
    pub package_name: String,
    /// The declared version requirement, kept as text.
    pub version_req: String,
    /// The rename given in the manifest, if any.
    pub explicit_name_in_toml: Option<String>,
    pub kind: DepKind,
    /// Whether the dependency may leak through the public API.
    pub public: bool,
    /// Platform predicate text; `None` means the edge applies everywhere.
    pub platform: Option<String>,
    /// Present when the edge consumes build products instead of linking a
    /// library.
    pub artifact: Option<Artifact>,
}

/// Ghost image of a [`Dependency`].
pub struct DependencyView {
    pub package_name: Seq<char>,
    pub version_req: Seq<char>,
    pub explicit_name_in_toml: Option<Seq<char>>,
    pub kind: DepKind,
    pub public: bool,
    pub platform: Option<Seq<char>>,
    pub artifact: Option<ArtifactView>,
}

impl View for Dependency {
    type V = DependencyView;

    open spec fn view(&self) -> DependencyView {
        DependencyView {
            package_name: self.package_name@,
            version_req: self.version_req@,
            explicit_name_in_toml: match self.explicit_name_in_toml {
                Some(n) => Some(n@),
                None => None,
            },
            kind: self.kind,
            public: self.public,
            platform: match self.platform {
                Some(p) => Some(p@),
                None => None,
            },
            artifact: match self.artifact {
                Some(a) => Some(a@),
                None => None,
            },
        }
    }
}

/// The name under which a dependency appears in its consumer's manifest:
/// the explicit rename when one was given, the package name otherwise.
pub open spec fn spec_name_in_toml(d: DependencyView) -> Seq<char> {
    match d.explicit_name_in_toml {
        Some(n) => n,
        None => d.package_name,
    }
}

impl Dependency {
    /// The name under which this edge appears in the consumer's manifest.
    pub fn name_in_toml(&self) -> (r: &String)
        ensures
            r@ == spec_name_in_toml(self@),
    {
        match &self.explicit_name_in_toml {
            Some(n) => n,
            None => &self.package_name,
        }
    }
}

/// The crate types a library target is built as.
#[derive(Clone, Copy, Debug, PartialEq, Eq, Structural)]
pub enum CrateType {
    Bin,
    Lib,
    Rlib,
    Dylib,
    Cdylib,
    Staticlib,
    ProcMacro,
}

/// The kind of a build target.
#[derive(Clone, Debug)]
pub enum TargetKind {
    Lib(Vec<CrateType>),
    Bin,
    Test,
    Bench,
    ExampleBin,
    ExampleLib(Vec<CrateType>),
    CustomBuild,
}

/// Ghost image of a [`TargetKind`].
pub enum TargetKindView {
    Lib(Seq<CrateType>),
    Bin,
    Test,
    Bench,
    ExampleBin,
    ExampleLib(Seq<CrateType>),
    CustomBuild,
}

impl View for TargetKind {
    type V = TargetKindView;

    open spec fn view(&self) -> TargetKindView {
        match self {
            TargetKind::Lib(ts) => TargetKindView::Lib(ts@),
            TargetKind::Bin => TargetKindView::Bin,
            TargetKind::Test => TargetKindView::Test,
            TargetKind::Bench => TargetKindView::Bench,
            TargetKind::ExampleBin => TargetKindView::ExampleBin,
            TargetKind::ExampleLib(ts) => TargetKindView::ExampleLib(ts@),
            TargetKind::CustomBuild => TargetKindView::CustomBuild,
        }
    }
}

/// One build target of a package: a library, a binary, a test, and so on.
#[derive(Clone, Debug)]
pub struct Target {
    pub kind: TargetKind,
    pub name: String,
}

/// Ghost image of a [`Target`].
pub struct TargetView {
    pub kind: TargetKindView,
    pub name: Seq<char>,
}

impl View for Target {
    type V = TargetView;

    open spec fn view(&self) -> TargetView {
        TargetView { kind: self.kind@, name: self.name@ }
    }
}

/// Whether a target is a library (anything linked as a crate).
pub open spec fn spec_is_lib(k: TargetKindView) -> bool {
    k is Lib
}

/// Whether a target is an ordinary executable.
pub open spec fn spec_is_bin(k: TargetKindView) -> bool {
    k is Bin
}

impl Target {
    /// The identifier consumers use for this target: its name with `-`
    /// replaced by `_`.
    pub fn crate_name(&self) -> (r: String)
        ensures
            r@ == crate::names::underscore_name(self.name@),
    {
        crate::names::to_underscore_name(self.name.as_str())
    }

    pub fn is_lib(&self) -> (r: bool)
        ensures
            r == spec_is_lib(self@.kind),
    {
        match self.kind {
            TargetKind::Lib(_) => true,
            _ => false,
        }
    }

    pub fn is_bin(&self) -> (r: bool)
        ensures
            r == spec_is_bin(self@.kind),
    {
        match self.kind {
            TargetKind::Bin => true,
            _ => false,
        }
    }

    /// An owned copy with the same view.
    pub fn duplicate(&self) -> (r: Target)
        ensures
            r@ == self@,
    {
        let kind = match &self.kind {
            TargetKind::Lib(ts) => TargetKind::Lib(dup_crate_types(ts)),
            TargetKind::Bin => TargetKind::Bin,
            TargetKind::Test => TargetKind::Test,
            TargetKind::Bench => TargetKind::Bench,
            TargetKind::ExampleBin => TargetKind::ExampleBin,
            TargetKind::ExampleLib(ts) => TargetKind::ExampleLib(dup_crate_types(ts)),
            TargetKind::CustomBuild => TargetKind::CustomBuild,
        };
        Target { kind, name: self.name.clone() }
    }
}

/// An owned copy of a crate-type list with the same view.
fn dup_crate_types(ts: &Vec<CrateType>) -> (r: Vec<CrateType>)
    ensures
        r@ == ts@,
{
    let mut out: Vec<CrateType> = Vec::new();
    let mut i: usize = 0;
    while i < ts.len()
        invariant
            i <= ts.len(),
            out@ == ts@.take(i as int),
        decreases ts.len() - i,
    {
        out.push(ts[i]);
        proof {
            assert(ts@.take(i + 1) =~= ts@.take(i as int).push(ts@[i as int]));
        }
        i = i + 1;
    }
    proof {
        assert(ts@.take(ts@.len() as int) =~= ts@);
    }
    out
}

/// The declared interface of one package: its identity, its declared
/// dependency edges and its feature names.
#[derive(Clone, Debug)]
pub struct Summary {
    pub package_id: PackageId,
    pub dependencies: Vec<Dependency>,
    pub features: Vec<String>,
}

/// Ghost image of a [`Summary`].
pub struct SummaryView {
    pub package_id: PkgIdView,
    pub dependencies: Seq<DependencyView>,
    pub features: Seq<Seq<char>>,
}

impl View for Summary {
    type V = SummaryView;

    open spec fn view(&self) -> SummaryView {
        SummaryView {
            package_id: self.package_id@,
            dependencies: self.dependencies@.map_values(|d: Dependency| d@),
            features: self.features@.map_values(|f: String| f@),
        }
    }
}

/// A loaded package: its identity and the build targets it declares.
#[derive(Clone, Debug)]
pub struct Package {
    pub package_id: PackageId,
    pub targets: Vec<Target>,
}

/// Ghost image of a [`Package`].
pub struct PackageView {
    pub package_id: PkgIdView,
    pub targets: Seq<TargetView>,
}

impl View for Package {
    type V = PackageView;

    open spec fn view(&self) -> PackageView {
        PackageView {
            package_id: self.package_id@,
            targets: self.targets@.map_values(|t: Target| t@),
        }
    }
}

impl Package {
    /// An owned copy with the same view.
    pub fn duplicate(&self) -> (r: Package)
        ensures
            r@ == self@,
    {
        let mut targets: Vec<Target> = Vec::new();
        let mut i: usize = 0;
        while i < self.targets.len()
            invariant
                i <= self.targets.len(),
                targets@.map_values(|t: Target| t@) == self.targets@.take(i as int).map_values(
                    |t: Target| t@,
                ),
            decreases self.targets.len() - i,
        {
            targets.push(self.targets[i].duplicate());
            proof {
                assert(self.targets@.take(i + 1).map_values(|t: Target| t@) =~= self.targets@.take(
                    i as int,
                ).map_values(|t: Target| t@).push(self.targets@[i as int]@));
                assert(targets@.map_values(|t: Target| t@) =~= targets@.take(
                    targets@.len() - 1,
                ).map_values(|t: Target| t@).push(targets@.last()@));
            }
            i = i + 1;
        }
        proof {
            assert(self.targets@.take(self.targets@.len() as int) =~= self.targets@);
        }
        Package { package_id: self.package_id.duplicate(), targets }
    }
}

/// The opaque `[metadata]` bag of a lockfile: unrecognized key/value pairs
/// preserved verbatim across resolutions for forward compatibility.
#[derive(Clone, Debug)]
pub struct Metadata {
    pub entries: Vec<(String, String)>,
}

impl View for Metadata {
    type V = Seq<(Seq<char>, Seq<char>)>;

    open spec fn view(&self) -> Seq<(Seq<char>, Seq<char>)> {
        self.entries@.map_values(|p: (String, String)| (p.0@, p.1@))
    }
}

impl Metadata {
    /// An empty bag.
    pub fn new() -> (r: Metadata)
        ensures
            r@ == Seq::<(Seq<char>, Seq<char>)>::empty(),
    {
        let m = Metadata { entries: Vec::new() };
        proof {
            assert(m@ =~= Seq::<(Seq<char>, Seq<char>)>::empty());
        }
        m
    }

    /// An owned copy with the same view.
    pub fn duplicate(&self) -> (r: Metadata)
        ensures
            r@ == self@,
    {
        let mut entries: Vec<(String, String)> = Vec::new();
        let mut i: usize = 0;
        while i < self.entries.len()
            invariant
                i <= self.entries.len(),
                entries@.map_values(|p: (String, String)| (p.0@, p.1@)) == self.entries@.take(
                    i as int,
                ).map_values(|p: (String, String)| (p.0@, p.1@)),
            decreases self.entries.len() - i,
        {
            let pair = (self.entries[i].0.clone(), self.entries[i].1.clone());
            entries.push(pair);
            proof {
                assert(self.entries@.take(i + 1).map_values(|p: (String, String)| (p.0@, p.1@))
                    =~= self.entries@.take(i as int).map_values(
                    |p: (String, String)| (p.0@, p.1@),
                ).push((self.entries@[i as int].0@, self.entries@[i as int].1@)));
                assert(entries@.map_values(|p: (String, String)| (p.0@, p.1@)) =~= entries@.take(
                    entries@.len() - 1,
                ).map_values(|p: (String, String)| (p.0@, p.1@)).push(
                    (entries@.last().0@, entries@.last().1@),
                ));
            }
            i = i + 1;
        }
        proof {
            assert(self.entries@.take(self.entries@.len() as int) =~= self.entries@);
        }
        Metadata { entries }
    }
}

/// The view of a package-identity list.
pub open spec fn ids_view(v: Seq<PackageId>) -> Seq<PkgIdView> {
    v.map_values(|p: PackageId| p@)
}

/// Whether some identity in `v` has the view `k`.
pub fn contains_id(v: &Vec<PackageId>, k: &PackageId) -> (r: bool)
    ensures
        r == ids_view(v@).contains(k@),
{
    let mut i: usize = 0;
    while i < v.len()
        invariant
            i <= v.len(),
            forall|j: int| 0 <= j < i ==> (#[trigger] v@[j])@ != k@,
        decreases v.len() - i,
    {
        if v[i] == *k {
            proof {
                assert(ids_view(v@)[i as int] == k@);
            }
            return true;
        }
        i = i + 1;
    }
    proof {
        assert(!ids_view(v@).contains(k@)) by {
            if ids_view(v@).contains(k@) {
                let j = choose|j: int|
                    0 <= j < ids_view(v@).len() && #[trigger] ids_view(v@)[j] == k@;
                assert(v@[j]@ == k@);
            }
        }
    }
    false
}

/// The view of an optional string.
pub open spec fn opt_str_view(o: Option<String>) -> Option<Seq<char>> {
    match o {
        Some(s) => Some(s@),
        None => None,
    }
}

/// The view of a string list, one sequence of characters per entry.
pub open spec fn strings_view(v: Seq<String>) -> Seq<Seq<char>> {
    v.map_values(|s: String| s@)
}

/// An owned copy of a string list with the same view.
pub fn dup_strings(v: &Vec<String>) -> (r: Vec<String>)
    ensures
        strings_view(r@) == strings_view(v@),
{
    let mut out: Vec<String> = Vec::new();
    let mut i: usize = 0;
    while i < v.len()
        invariant
            i <= v.len(),
            strings_view(out@) == strings_view(v@.take(i as int)),
        decreases v.len() - i,
    {
        out.push(v[i].clone());
        proof {
            assert(strings_view(v@.take(i + 1)) =~= strings_view(v@.take(i as int)).push(
                v@[i as int]@,
            ));
            assert(strings_view(out@) =~= strings_view(out@.take(out@.len() - 1)).push(
                out@.last()@,
            ));
        }
        i = i + 1;
    }
    proof {
        assert(v@.take(v@.len() as int) =~= v@);
    }
    out
}

/// An owned copy of a dependency edge with the same view.
pub fn dup_dependency(d: &Dependency) -> (r: Dependency)
    ensures
        r@ == d@,
{
    let artifact = match &d.artifact {
        Some(a) => {
            let mut kinds: Vec<ArtifactKind> = Vec::new();
            let mut i: usize = 0;
            while i < a.kinds.len()
                invariant
                    i <= a.kinds.len(),
                    kinds@.map_values(|k: ArtifactKind| k@) == a.kinds@.take(i as int).map_values(
                        |k: ArtifactKind| k@,
                    ),
                decreases a.kinds.len() - i,
            {
                let k = match &a.kinds[i] {
                    ArtifactKind::Staticlib => ArtifactKind::Staticlib,
                    ArtifactKind::Cdylib => ArtifactKind::Cdylib,
                    ArtifactKind::AllBinaries => ArtifactKind::AllBinaries,
                    ArtifactKind::SelectedBinary(n) => ArtifactKind::SelectedBinary(n.clone()),
                };
                kinds.push(k);
                proof {
                    assert(a.kinds@.take(i + 1).map_values(|k: ArtifactKind| k@) =~= a.kinds@.take(
                        i as int,
                    ).map_values(|k: ArtifactKind| k@).push(a.kinds@[i as int]@));
                    assert(kinds@.map_values(|k: ArtifactKind| k@) =~= kinds@.take(
                        kinds@.len() - 1,
                    ).map_values(|k: ArtifactKind| k@).push(kinds@.last()@));
                }
                i = i + 1;
            }
            proof {
                assert(a.kinds@.take(a.kinds@.len() as int) =~= a.kinds@);
            }
            let target = match &a.target {
                Some(ArtifactTarget::BuildDependencyAssumeTarget) => Some(
                    ArtifactTarget::BuildDependencyAssumeTarget,
                ),
                Some(ArtifactTarget::Force(t)) => Some(ArtifactTarget::Force(t.clone())),
                None => None,
            };
            Some(Artifact { kinds, lib: a.lib, target })
        },
        None => None,
    };
    Dependency {
        package_name: d.package_name.clone(),
        version_req: d.version_req.clone(),
        explicit_name_in_toml: match &d.explicit_name_in_toml {
            Some(n) => Some(n.clone()),
            None => None,
        },
        kind: d.kind,
        public: d.public,
        platform: match &d.platform {
            Some(p) => Some(p.clone()),
            None => None,
        },
        artifact,
    }
}

/// The view of a dependency list.
pub open spec fn deps_view(v: Seq<Dependency>) -> Seq<DependencyView> {
    v.map_values(|d: Dependency| d@)
}

/// An owned copy of a dependency list with the same view.
pub fn dup_dependencies(v: &Vec<Dependency>) -> (r: Vec<Dependency>)
    ensures
        deps_view(r@) == deps_view(v@),
{
    let mut out: Vec<Dependency> = Vec::new();
    let mut i: usize = 0;
    while i < v.len()
        invariant
            i <= v.len(),
            deps_view(out@) == deps_view(v@.take(i as int)),
        decreases v.len() - i,
    {
        out.push(dup_dependency(&v[i]));
        proof {
            assert(deps_view(v@.take(i + 1)) =~= deps_view(v@.take(i as int)).push(v@[i as int]@));
            assert(deps_view(out@) =~= deps_view(out@.take(out@.len() - 1)).push(out@.last()@));
        }
        i = i + 1;
    }
    proof {
        assert(v@.take(v@.len() as int) =~= v@);
    }
    out
}

} // verus!
