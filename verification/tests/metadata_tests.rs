use resolve_core::graph::Graph;
use resolve_core::metadata::build_resolve_graph;
use resolve_core::metadata::output_metadata;
use resolve_core::metadata::single_dep_kind_or_spread_artifact_kinds;
use resolve_core::metadata::CliFeatures;
use resolve_core::metadata::MetadataError;
use resolve_core::metadata::OutputMetadataOptions;
use resolve_core::metadata::WorkspaceInfo;
use resolve_core::resolve::Resolve;
use resolve_core::resolve::ResolveVersion;
use resolve_core::types::Artifact;
use resolve_core::types::ArtifactKind;
use resolve_core::types::CrateType;
use resolve_core::types::DepKind;
use resolve_core::types::Dependency;
use resolve_core::types::Metadata;
use resolve_core::types::Package;
use resolve_core::types::PackageId;
use resolve_core::types::Summary;
use resolve_core::types::Target;
use resolve_core::types::TargetKind;
use resolve_core::types::Version;

fn pid(name: &str) -> PackageId {
    PackageId {
        name: name.to_string(),
        version: Version { major: 1, minor: 0, patch: 0 },
        source_id: "registry".to_string(),
    }
}

fn dep(package_name: &str, kind: DepKind) -> Dependency {
    Dependency {
        package_name: package_name.to_string(),
        version_req: "^1.0".to_string(),
        explicit_name_in_toml: None,
        kind,
        public: false,
        platform: None,
        artifact: None,
    }
}

fn lib_package(name: &str) -> Package {
    Package {
        package_id: pid(name),
        targets: vec![Target {
            kind: TargetKind::Lib(vec![CrateType::Lib]),
            name: name.to_string(),
        }],
    }
}

fn resolve_of(graph: Graph) -> Resolve {
    let mut features = Vec::new();
    let mut checksums = Vec::new();
    let mut summaries = Vec::new();
    for (id, _) in &graph.nodes {
        features.push((id.clone(), Vec::new()));
        checksums.push((id.clone(), None));
        summaries.push((
            id.clone(),
            Summary { package_id: id.clone(), dependencies: Vec::new(), features: Vec::new() },
        ));
    }
    Resolve::new(
        graph,
        Vec::new(),
        features,
        checksums,
        Metadata { entries: Vec::new() },
        Vec::new(),
        ResolveVersion::V3,
        summaries,
    )
}

fn options(no_deps: bool, version: u32) -> OutputMetadataOptions {
    OutputMetadataOptions {
        cli_features: CliFeatures {
            features: Vec::new(),
            all_features: false,
            uses_default_features: true,
        },
        no_deps,
        version,
        filter_platforms: Vec::new(),
    }
}

fn workspace(members: Vec<Package>) -> WorkspaceInfo {
    WorkspaceInfo {
        members,
        current: None,
        target_directory: "/ws/target".to_string(),
        workspace_root: "/ws".to_string(),
        custom_metadata: Some("note = \"kept\"".to_string()),
    }
}

#[test]
fn plain_dependency_becomes_one_record() {
    let d = dep("helper", DepKind::Build);
    let records = single_dep_kind_or_spread_artifact_kinds(None, &d);
    assert_eq!(records.len(), 1);
    assert_eq!(records[0].kind, DepKind::Build);
    assert_eq!(records[0].extern_name, "helper");
    assert!(records[0].artifact.is_none());
    assert!(records[0].bin_name.is_none());
}

#[test]
fn artifact_kinds_are_spread_into_records() {
    let mut d = dep("gadget-maker", DepKind::Build);
    d.artifact = Some(Artifact {
        kinds: vec![
            ArtifactKind::Staticlib,
            ArtifactKind::AllBinaries,
            ArtifactKind::SelectedBinary("chosen-one".to_string()),
        ],
        lib: true,
        target: Some(resolve_core::types::ArtifactTarget::BuildDependencyAssumeTarget),
    });
    let pkg = Package {
        package_id: pid("gadget-maker"),
        targets: vec![
            Target { kind: TargetKind::Bin, name: "first-bin".to_string() },
            Target { kind: TargetKind::Lib(vec![CrateType::Lib]), name: "gadget-maker".to_string() },
            Target { kind: TargetKind::Bin, name: "second-bin".to_string() },
        ],
    };
    let records = single_dep_kind_or_spread_artifact_kinds(Some(&pkg), &d);
    // staticlib + selected binary + two spread binaries + the lib record
    assert_eq!(records.len(), 5);
    assert_eq!(records[0].artifact.as_deref(), Some("staticlib"));
    assert_eq!(records[0].compile_target.as_deref(), Some("target"));
    assert_eq!(records[1].artifact.as_deref(), Some("bin"));
    assert_eq!(records[1].bin_name.as_deref(), Some("chosen-one"));
    assert_eq!(records[1].extern_name, "chosen_one");
    assert_eq!(records[2].bin_name.as_deref(), Some("first-bin"));
    assert_eq!(records[3].bin_name.as_deref(), Some("second-bin"));
    assert!(records[4].artifact.is_none());
    assert_eq!(records[4].extern_name, "gadget_maker");
}

#[test]
fn all_binaries_without_a_package_are_skipped() {
    let mut d = dep("ghost", DepKind::Normal);
    d.artifact = Some(Artifact {
        kinds: vec![ArtifactKind::AllBinaries],
        lib: false,
        target: None,
    });
    let records = single_dep_kind_or_spread_artifact_kinds(None, &d);
    assert!(records.is_empty());
}

#[test]
fn unsupported_version_is_rejected() {
    let ws = workspace(vec![lib_package("a")]);
    let resolve = resolve_of(Graph::new());
    match output_metadata(&ws, &resolve, &Vec::new(), &Vec::new(), &options(true, 2)) {
        Err(MetadataError::UnsupportedVersion { requested, supported }) => {
            assert_eq!(requested, 2);
            assert_eq!(supported, 1);
        }
        other => panic!("expected an unsupported-version failure, got {:?}", other),
    }
}

#[test]
fn no_deps_lists_only_the_members() {
    let ws = workspace(vec![lib_package("a")]);
    let resolve = resolve_of(Graph::new());
    let info = output_metadata(&ws, &resolve, &Vec::new(), &Vec::new(), &options(true, 1)).unwrap();
    assert!(info.resolve.is_none());
    assert_eq!(info.packages.len(), 1);
    assert_eq!(info.packages[0].package_id.name, "a");
    assert_eq!(info.workspace_members.len(), 1);
    assert_eq!(info.version, 1);
    assert_eq!(info.target_directory, "/ws/target");
    assert_eq!(info.workspace_root, "/ws");
    assert_eq!(info.metadata.as_deref(), Some("note = \"kept\""));
}

#[test]
fn resolved_export_walks_reachable_packages_in_order() {
    let a = pid("zebra");
    let b = pid("apple");
    let c = pid("unreached");
    let mut g = Graph::new();
    g.link(&a, &b, dep("apple", DepKind::Normal));
    g.add(&c);
    let resolve = resolve_of(g);
    let packages = vec![lib_package("zebra"), lib_package("apple"), lib_package("unreached")];
    let members = vec![pid("zebra")];
    let (actual, mr) = build_resolve_graph(&resolve, &packages, &members, &Some(pid("zebra")), true, &Vec::new());
    // only the member and its dependency, sorted by identity
    assert_eq!(mr.nodes.len(), 2);
    assert_eq!(mr.nodes[0].id.name, "apple");
    assert_eq!(mr.nodes[1].id.name, "zebra");
    assert_eq!(actual.len(), 2);
    assert_eq!(actual[0].package_id.name, "apple");
    assert_eq!(actual[1].package_id.name, "zebra");
    assert_eq!(mr.root.as_ref().unwrap().name, "zebra");
    // the member's node lists its one dependency
    assert_eq!(mr.nodes[1].dependencies.len(), 1);
    assert_eq!(mr.nodes[1].dependencies[0].name, "apple");
    assert_eq!(mr.nodes[1].deps.len(), 1);
    assert_eq!(mr.nodes[1].deps[0].name, "apple");
    assert_eq!(mr.nodes[1].deps[0].dep_kinds.len(), 1);
    assert_eq!(mr.nodes[1].deps[0].dep_kinds[0].kind, DepKind::Normal);
    assert!(mr.nodes[0].deps.is_empty());
}

#[test]
fn platform_filter_drops_inactive_edges() {
    let a = pid("a");
    let b = pid("b");
    let mut g = Graph::new();
    let mut d = dep("b", DepKind::Normal);
    d.platform = Some("cfg(windows)".to_string());
    g.link(&a, &b, d);
    let resolve = resolve_of(g);
    let packages = vec![lib_package("a"), lib_package("b")];
    let members = vec![pid("a")];
    // requesting a platform where cfg(windows) is inactive
    let (_, mr) = build_resolve_graph(
        &resolve,
        &packages,
        &members,
        &None,
        false,
        &vec!["cfg(unix)".to_string()],
    );
    let node_a = mr.nodes.iter().find(|n| n.id.name == "a").unwrap();
    assert!(node_a.deps.is_empty());
    // with only the host requested, every edge is shown
    let (_, mr2) = build_resolve_graph(&resolve, &packages, &members, &None, true, &Vec::new());
    let node_a2 = mr2.nodes.iter().find(|n| n.id.name == "a").unwrap();
    assert_eq!(node_a2.deps.len(), 1);
}

#[test]
fn record_sorting_is_by_category_first() {
    // sorting happens inside the export; exercise it through an edge
    // declared under several categories
    let a = pid("a");
    let b = pid("b");
    let mut g = Graph::new();
    g.link(&a, &b, dep("b", DepKind::Build));
    g.link(&a, &b, dep("b", DepKind::Normal));
    g.link(&a, &b, dep("b", DepKind::Development));
    let resolve = resolve_of(g);
    let packages = vec![lib_package("a"), lib_package("b")];
    let members = vec![pid("a")];
    let (_, mr) = build_resolve_graph(&resolve, &packages, &members, &None, true, &Vec::new());
    let node_a = mr.nodes.iter().find(|n| n.id.name == "a").unwrap();
    let kinds: Vec<DepKind> = node_a.deps[0].dep_kinds.iter().map(|k| k.kind).collect();
    assert_eq!(kinds, vec![DepKind::Normal, DepKind::Development, DepKind::Build]);
}
