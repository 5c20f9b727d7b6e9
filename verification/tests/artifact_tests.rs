use resolve_core::artifact::set_env;
use resolve_core::artifact::unit_artifact_type_name_upper;
use resolve_core::artifact::FileFlavor;
use resolve_core::artifact::OutputFile;
use resolve_core::artifact::UnitDep;
use resolve_core::names::parent_dir;
use resolve_core::names::to_env_name;
use resolve_core::names::to_underscore_name;
use resolve_core::types::CrateType;
use resolve_core::types::Target;
use resolve_core::types::TargetKind;

fn bin_unit(dep_name: Option<&str>, pkg: &str, target: &str, outputs: Vec<OutputFile>, key: u64) -> UnitDep {
    UnitDep {
        is_artifact: true,
        dep_name: dep_name.map(|s| s.to_string()),
        pkg_name: pkg.to_string(),
        target: Target { kind: TargetKind::Bin, name: target.to_string() },
        unit_metadata: key,
        outputs,
    }
}

fn normal(path: &str) -> OutputFile {
    OutputFile { path: path.to_string(), flavor: FileFlavor::Normal }
}

fn has_pair(set: &[(String, String)], k: &str, v: &str) -> bool {
    set.iter().any(|p| p.0 == k && p.1 == v)
}

#[test]
fn bin_artifact_variables_with_matching_name() {
    let deps = vec![bin_unit(None, "bar-baz", "bar-baz", vec![normal("/out/bar-baz")], 7)];
    let rec = set_env(&deps).expect("one artifact dependency contributes");
    assert_eq!(rec.len(), 1);
    assert_eq!(rec[0].0, 7);
    let set = &rec[0].1;
    assert_eq!(set.len(), 3);
    assert!(has_pair(set, "CARGO_BIN_DIR_BAR_BAZ", "/out"));
    assert!(has_pair(set, "CARGO_BIN_FILE_BAR_BAZ_bar-baz", "/out/bar-baz"));
    assert!(has_pair(set, "CARGO_BIN_FILE_BAR_BAZ", "/out/bar-baz"));
}

#[test]
fn no_false_alias_for_a_second_binary() {
    let deps = vec![
        bin_unit(None, "bar", "bar", vec![normal("/out/bar")], 1),
        bin_unit(None, "bar", "baz", vec![normal("/out/baz")], 2),
    ];
    let rec = set_env(&deps).expect("two artifact dependencies contribute");
    assert_eq!(rec.len(), 2);
    let first = &rec[0].1;
    let second = &rec[1].1;
    assert!(has_pair(first, "CARGO_BIN_FILE_BAR_bar", "/out/bar"));
    assert!(has_pair(second, "CARGO_BIN_FILE_BAR_baz", "/out/baz"));
    // the unsuffixed alias follows only the binary whose name matches
    assert!(has_pair(first, "CARGO_BIN_FILE_BAR", "/out/bar"));
    assert!(!second.iter().any(|p| p.0 == "CARGO_BIN_FILE_BAR"));
}

#[test]
fn rename_decides_the_variable_fragment() {
    let deps = vec![bin_unit(Some("my-tool"), "real-name", "binname", vec![normal("/bin/binname")], 3)];
    let rec = set_env(&deps).unwrap();
    let set = &rec[0].1;
    assert!(has_pair(set, "CARGO_BIN_DIR_MY_TOOL", "/bin"));
    assert!(has_pair(set, "CARGO_BIN_FILE_MY_TOOL_binname", "/bin/binname"));
    // "binname" differs from the effective name "my-tool": no alias
    assert!(!set.iter().any(|p| p.0 == "CARGO_BIN_FILE_MY_TOOL"));
}

#[test]
fn non_normal_outputs_are_not_projected() {
    let mut unit = bin_unit(None, "bar", "bar", Vec::new(), 4);
    unit.outputs = vec![OutputFile { path: "/out/bar.dbg".to_string(), flavor: FileFlavor::DebugInfo }];
    let deps = vec![unit];
    assert!(set_env(&deps).is_none());
}

#[test]
fn non_artifact_dependencies_contribute_nothing() {
    let mut unit = bin_unit(None, "bar", "bar", vec![normal("/out/bar")], 5);
    unit.is_artifact = false;
    assert!(set_env(&vec![unit]).is_none());
}

#[test]
fn duplicate_directory_variables_are_recorded_once() {
    let deps = vec![bin_unit(
        None,
        "tool",
        "tool",
        vec![normal("/out/tool"), normal("/out/tool")],
        6,
    )];
    let rec = set_env(&deps).unwrap();
    let set = &rec[0].1;
    let dirs = set.iter().filter(|p| p.0 == "CARGO_BIN_DIR_TOOL").count();
    assert_eq!(dirs, 1);
}

#[test]
fn artifact_type_tags() {
    let cdylib = Target { kind: TargetKind::Lib(vec![CrateType::Cdylib]), name: "x".to_string() };
    let staticlib = Target { kind: TargetKind::Lib(vec![CrateType::Staticlib]), name: "x".to_string() };
    let bin = Target { kind: TargetKind::Bin, name: "x".to_string() };
    assert_eq!(unit_artifact_type_name_upper(&cdylib), "CDYLIB");
    assert_eq!(unit_artifact_type_name_upper(&staticlib), "STATICLIB");
    assert_eq!(unit_artifact_type_name_upper(&bin), "BIN");
}

#[test]
fn name_normalization() {
    assert_eq!(to_env_name("bar-baz"), "BAR_BAZ");
    assert_eq!(to_env_name("mixed-Case9"), "MIXED_CASE9");
    assert_eq!(to_underscore_name("bar-baz"), "bar_baz");
    assert_eq!(to_underscore_name("plain"), "plain");
}

#[test]
fn parent_directories_of_output_paths() {
    assert_eq!(parent_dir("/out/bar-baz"), "/out");
    assert_eq!(parent_dir("/bar"), "/");
    assert_eq!(parent_dir("nested/dir/file"), "nested/dir");
}
