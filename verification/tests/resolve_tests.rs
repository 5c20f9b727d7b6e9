use resolve_core::graph::Graph;
use resolve_core::resolve::PackageIdSpec;
use resolve_core::resolve::Resolve;
use resolve_core::resolve::ResolveError;
use resolve_core::resolve::ResolveVersion;
use resolve_core::types::DepKind;
use resolve_core::types::Dependency;
use resolve_core::types::Metadata;
use resolve_core::types::PackageId;
use resolve_core::types::Summary;
use resolve_core::types::Target;
use resolve_core::types::TargetKind;
use resolve_core::types::Version;

fn pid(name: &str) -> PackageId {
    PackageId {
        name: name.to_string(),
        version: Version { major: 1, minor: 0, patch: 0 },
        source_id: "registry".to_string(),
    }
}

fn dep(package_name: &str, kind: DepKind, public: bool, rename: Option<&str>) -> Dependency {
    Dependency {
        package_name: package_name.to_string(),
        version_req: "^1.0".to_string(),
        explicit_name_in_toml: rename.map(|s| s.to_string()),
        kind,
        public,
        platform: None,
        artifact: None,
    }
}

fn summary_of(id: &PackageId) -> Summary {
    Summary { package_id: id.clone(), dependencies: Vec::new(), features: Vec::new() }
}

fn resolve_of(graph: Graph, replacements: Vec<(PackageId, PackageId)>) -> Resolve {
    let mut features = Vec::new();
    let mut checksums = Vec::new();
    let mut summaries = Vec::new();
    for (id, _) in &graph.nodes {
        features.push((id.clone(), Vec::new()));
        checksums.push((id.clone(), Some(format!("digest-of-{}", id.name))));
        summaries.push((id.clone(), summary_of(id)));
    }
    Resolve::new(
        graph,
        replacements,
        features,
        checksums,
        Metadata { entries: Vec::new() },
        Vec::new(),
        ResolveVersion::V3,
        summaries,
    )
}

fn lib_target(name: &str) -> Target {
    Target { kind: TargetKind::Lib(vec![resolve_core::types::CrateType::Lib]), name: name.to_string() }
}

#[test]
fn public_dependency_index_matches_edges() {
    let a = pid("a");
    let b = pid("b");
    let c = pid("c");
    let mut g = Graph::new();
    g.link(&a, &b, dep("b", DepKind::Normal, true, None));
    g.link(&a, &c, dep("c", DepKind::Normal, false, None));
    g.link(&a, &c, dep("c", DepKind::Build, true, None));
    let r = resolve_of(g, Vec::new());
    assert!(r.is_public_dep(&a, &b));
    // `c` is reached only by a private normal edge and a build edge
    assert!(!r.is_public_dep(&a, &c));
    assert!(!r.is_public_dep(&b, &a));
}

#[test]
fn replacement_inverse_round_trip() {
    let a = pid("a");
    let orig = pid("orig");
    let sub = pid("sub");
    let mut g = Graph::new();
    g.link(&a, &orig, dep("orig", DepKind::Normal, false, None));
    g.add(&sub);
    let r = resolve_of(g, vec![(orig.clone(), sub.clone())]);
    // the derived inverse maps the stand-in back to the original
    assert_eq!(r.reverse_replacements.len(), 1);
    assert_eq!(r.reverse_replacements[0].0.name, "sub");
    assert_eq!(r.reverse_replacements[0].1.name, "orig");
    // `deps` substitutes the stand-in
    let ds = r.deps(&a);
    assert_eq!(ds.len(), 1);
    assert_eq!(ds[0].0.name, "sub");
    let raw = r.deps_not_replaced(&a);
    assert_eq!(raw[0].0.name, "orig");
    assert_eq!(r.replacement(&orig).unwrap().name, "sub");
    assert!(r.replacement(&sub).is_none());
}

fn two_package_resolve(checksum_a: Option<&str>) -> Resolve {
    let a = pid("a");
    let b = pid("b");
    let mut g = Graph::new();
    g.link(&a, &b, dep("b", DepKind::Normal, false, None));
    let mut features = Vec::new();
    let mut checksums = Vec::new();
    let mut summaries = Vec::new();
    for (id, _) in &g.nodes {
        features.push((id.clone(), Vec::new()));
        let ck = if id.name == "a" { checksum_a.map(|s| s.to_string()) } else { Some("bsum".to_string()) };
        checksums.push((id.clone(), ck));
        summaries.push((id.clone(), summary_of(id)));
    }
    Resolve::new(
        g,
        Vec::new(),
        features,
        checksums,
        Metadata { entries: vec![("tool.note".to_string(), "kept".to_string())] },
        Vec::new(),
        ResolveVersion::V3,
        summaries,
    )
}

#[test]
fn merge_with_same_checksums_succeeds() {
    let mut fresh = two_package_resolve(Some("asum"));
    let previous = two_package_resolve(Some("asum"));
    assert!(fresh.merge_from(&previous).is_ok());
}

#[test]
fn merge_carries_metadata_and_version_over() {
    let mut fresh = two_package_resolve(Some("asum"));
    fresh.metadata = Metadata { entries: Vec::new() };
    fresh.set_version(ResolveVersion::V3);
    let mut previous = two_package_resolve(Some("asum"));
    previous.metadata = Metadata {
        entries: vec![("future.key".to_string(), "opaque".to_string())],
    };
    previous.set_version(ResolveVersion::V1);
    assert!(fresh.merge_from(&previous).is_ok());
    assert_eq!(fresh.metadata().entries.len(), 1);
    assert_eq!(fresh.metadata().entries[0].0, "future.key");
    assert_eq!(fresh.metadata().entries[0].1, "opaque");
    assert_eq!(fresh.version(), ResolveVersion::V1);
}

#[test]
fn merge_rejects_appearing_checksum() {
    let mut fresh = two_package_resolve(Some("asum"));
    let previous = two_package_resolve(None);
    match fresh.merge_from(&previous) {
        Err(ResolveError::ChecksumAppeared { package }) => assert_eq!(package.name, "a"),
        other => panic!("expected a checksum-appeared failure, got {:?}", other),
    }
}

#[test]
fn merge_rejects_disappearing_checksum() {
    let mut fresh = two_package_resolve(None);
    let previous = two_package_resolve(Some("asum"));
    match fresh.merge_from(&previous) {
        Err(ResolveError::ChecksumDisappeared { package }) => assert_eq!(package.name, "a"),
        other => panic!("expected a checksum-disappeared failure, got {:?}", other),
    }
}

#[test]
fn merge_rejects_changed_checksum() {
    let mut fresh = two_package_resolve(Some("newsum"));
    let previous = two_package_resolve(Some("oldsum"));
    match fresh.merge_from(&previous) {
        Err(ResolveError::ChecksumChanged { package }) => assert_eq!(package.name, "a"),
        other => panic!("expected a checksum-changed failure, got {:?}", other),
    }
}

#[test]
fn merge_skips_packages_the_new_resolution_dropped() {
    let mut fresh = two_package_resolve(Some("asum"));
    let extra = pid("gone");
    let mut previous = two_package_resolve(Some("asum"));
    previous.checksums.push((extra, Some("gsum".to_string())));
    assert!(fresh.merge_from(&previous).is_ok());
}

#[test]
fn extern_crate_name_uses_rename() {
    let a = pid("a");
    let b = pid("bar-baz");
    let mut g = Graph::new();
    g.link(&a, &b, dep("bar-baz", DepKind::Normal, false, Some("alias-name")));
    let r = resolve_of(g, Vec::new());
    let (name, dep_name) = r.extern_crate_name_and_dep_name(&a, &b, &lib_target("bar-baz")).unwrap();
    assert_eq!(name, "alias_name");
    assert_eq!(dep_name.as_deref(), Some("alias-name"));
}

#[test]
fn extern_crate_name_defaults_to_crate_name() {
    let a = pid("a");
    let b = pid("bar-baz");
    let mut g = Graph::new();
    g.link(&a, &b, dep("bar-baz", DepKind::Normal, false, None));
    let r = resolve_of(g, Vec::new());
    let (name, dep_name) = r.extern_crate_name_and_dep_name(&a, &b, &lib_target("bar-baz")).unwrap();
    assert_eq!(name, "bar_baz");
    assert!(dep_name.is_none());
}

#[test]
fn conflicting_renames_are_rejected() {
    let a = pid("a");
    let b = pid("b");
    let mut g = Graph::new();
    g.link(&a, &b, dep("b", DepKind::Normal, false, Some("first")));
    g.link(&a, &b, dep("b", DepKind::Build, false, Some("second")));
    let r = resolve_of(g, Vec::new());
    match r.extern_crate_name_and_dep_name(&a, &b, &lib_target("b")) {
        Err(ResolveError::MultipleNames { from, to }) => {
            assert_eq!(from.name, "a");
            assert_eq!(to.name, "b");
        }
        other => panic!("expected a multiple-names failure, got {:?}", other),
    }
}

#[test]
fn self_dependency_never_fails() {
    let p = pid("selfish");
    let mut g = Graph::new();
    g.add(&p);
    let r = resolve_of(g, Vec::new());
    let (name, dep_name) = r.extern_crate_name_and_dep_name(&p, &p, &lib_target("selfish")).unwrap();
    assert_eq!(name, "selfish");
    assert!(dep_name.is_none());
}

#[test]
fn replaced_target_is_looked_up_through_the_original() {
    let a = pid("a");
    let orig = pid("orig");
    let sub = pid("sub");
    let mut g = Graph::new();
    g.link(&a, &orig, dep("orig", DepKind::Normal, false, Some("renamed")));
    g.add(&sub);
    let r = resolve_of(g, vec![(orig.clone(), sub.clone())]);
    // the edge was declared against `orig`; asking about the stand-in
    // still finds it
    let ds = r.dependencies_listed(&a, &sub);
    assert_eq!(ds.len(), 1);
    assert_eq!(ds[0].explicit_name_in_toml.as_deref(), Some("renamed"));
}

#[test]
fn query_picks_the_single_match() {
    let a = pid("a");
    let b = pid("b");
    let mut g = Graph::new();
    g.link(&a, &b, dep("b", DepKind::Normal, false, None));
    let r = resolve_of(g, Vec::new());
    let spec = PackageIdSpec { name: "b".to_string(), version: None };
    assert_eq!(r.query(&spec).unwrap().name, "b");
    let missing = PackageIdSpec { name: "nope".to_string(), version: None };
    match r.query(&missing) {
        Err(ResolveError::SpecNotFound { name }) => assert_eq!(name, "nope"),
        other => panic!("expected a not-found failure, got {:?}", other),
    }
    let wrong_version = PackageIdSpec {
        name: "b".to_string(),
        version: Some(Version { major: 9, minor: 9, patch: 9 }),
    };
    assert!(r.query(&wrong_version).is_err());
}

#[test]
fn query_rejects_an_ambiguous_spec() {
    let a = pid("a");
    let mut other = pid("a");
    other.version = Version { major: 2, minor: 0, patch: 0 };
    let mut g = Graph::new();
    g.add(&a);
    g.add(&other);
    let r = resolve_of(g, Vec::new());
    let spec = PackageIdSpec { name: "a".to_string(), version: None };
    match r.query(&spec) {
        Err(ResolveError::SpecAmbiguous { name }) => assert_eq!(name, "a"),
        other => panic!("expected an ambiguous failure, got {:?}", other),
    }
    let narrowed = PackageIdSpec {
        name: "a".to_string(),
        version: Some(Version { major: 2, minor: 0, patch: 0 }),
    };
    assert_eq!(r.query(&narrowed).unwrap().version.major, 2);
}

#[test]
fn register_used_patches_keeps_only_unmatched_ones() {
    let a = pid("a");
    let b = pid("b");
    let unused = pid("offered");
    let mut g = Graph::new();
    g.link(&a, &b, dep("b", DepKind::Normal, false, None));
    let mut r = resolve_of(g, Vec::new());
    r.register_used_patches(&vec![summary_of(&b), summary_of(&unused)]);
    assert_eq!(r.unused_patches().len(), 1);
    assert_eq!(r.unused_patches()[0].name, "offered");
}

#[test]
fn sort_lists_dependencies_before_dependents() {
    let a = pid("a");
    let b = pid("b");
    let c = pid("c");
    let mut g = Graph::new();
    g.link(&a, &b, dep("b", DepKind::Normal, false, None));
    g.link(&b, &c, dep("c", DepKind::Normal, false, None));
    let r = resolve_of(g, Vec::new());
    let order = r.sort();
    assert_eq!(order.len(), 3);
    let pos = |n: &str| order.iter().position(|p| p.name == n).unwrap();
    assert!(pos("c") < pos("b"));
    assert!(pos("b") < pos("a"));
}

#[test]
fn path_to_top_walks_up_to_a_root() {
    let a = pid("a");
    let b = pid("b");
    let c = pid("c");
    let mut g = Graph::new();
    g.link(&a, &b, dep("b", DepKind::Normal, false, None));
    g.link(&b, &c, dep("c", DepKind::Normal, false, None));
    let r = resolve_of(g, Vec::new());
    let path = r.path_to_top(&c);
    let names: Vec<&str> = path.iter().map(|e| e.0.name.as_str()).collect();
    assert_eq!(names, vec!["a", "b", "c"]);
    assert!(path[0].1.is_some());
    assert!(path[2].1.is_none());
}

#[test]
fn features_fall_back_to_empty() {
    let a = pid("a");
    let mut g = Graph::new();
    g.add(&a);
    let mut r = resolve_of(g, Vec::new());
    r.features = vec![(a.clone(), vec!["std".to_string(), "extra".to_string()])];
    assert_eq!(r.features(&a), vec!["std".to_string(), "extra".to_string()]);
    assert!(r.features(&pid("unknown")).is_empty());
    let cloned = r.features_clone();
    assert_eq!(cloned.len(), 1);
    assert_eq!(cloned[0].1.len(), 2);
}

#[test]
fn default_version_is_the_newest() {
    assert_eq!(ResolveVersion::default(), ResolveVersion::V3);
    assert!(ResolveVersion::V1 < ResolveVersion::V2);
    assert!(ResolveVersion::V2 < ResolveVersion::V3);
}
