use std::collections::{BTreeMap, BTreeSet};

use consolidator::duplicates::{find_duplicates, validate};
use consolidator::extra_deps::{extra_deps_as_targeted_deps, into_buildable_dependency};
use consolidator::overrides::apply_override;
use consolidator::targets::{is_cfg_predicate, select_platforms, targeted_dep_context_for};
use consolidator::{
    ConsolidationError, Consolidator, ConsolidatorConfig, ConsolidatorOverride, CrateContext,
    CrateDependencyContext, CrateSettings, CrateTargetedDepContext, OrderedMap, OrderedSet,
    RendererInput,
};

const LINUX: &str = "x86_64-unknown-linux-gnu";
const DARWIN: &str = "x86_64-apple-darwin";
const WINDOWS: &str = "x86_64-pc-windows-msvc";

fn text(s: &str) -> String {
    s.to_string()
}

fn texts(items: &[&str]) -> Vec<String> {
    items.iter().map(|s| s.to_string()).collect()
}

fn set_of(items: &[&str]) -> OrderedSet<String> {
    let mut set = OrderedSet::new();
    for item in items {
        set.insert(item.to_string());
    }
    set
}

fn elements(set: &OrderedSet<String>) -> Vec<String> {
    (0..set.len()).map(|i| set.element_at(i).clone()).collect()
}

fn env_of(pairs: &[(&str, &str)]) -> OrderedMap<String, String> {
    let mut map = OrderedMap::new();
    for (name, value) in pairs {
        map.insert(name.to_string(), value.to_string());
    }
    map
}

fn env_pairs(map: &OrderedMap<String, String>) -> Vec<(String, String)> {
    (0..map.len()).map(|i| (map.key_at(i).clone(), map.value_at(i).clone())).collect()
}

fn labels_of(pairs: &[(&str, &[&str])]) -> OrderedMap<String, Vec<String>> {
    let mut map = OrderedMap::new();
    for (target, labels) in pairs {
        map.insert(target.to_string(), texts(labels));
    }
    map
}

fn targets_of(set: &OrderedSet<consolidator::BuildableDependency>) -> Vec<String> {
    (0..set.len()).map(|i| set.element_at(i).buildable_target.clone()).collect()
}

fn package(name: &str, version: &str) -> CrateContext {
    CrateContext {
        pkg_name: text(name),
        pkg_version: text(version),
        targeted_deps: Vec::new(),
        features: Vec::new(),
        raze_settings: CrateSettings {
            additional_env: OrderedMap::new(),
            buildrs_additional_environment_variables: OrderedMap::new(),
        },
    }
}

fn config_of(entries: Vec<(&str, ConsolidatorOverride)>) -> ConsolidatorConfig {
    let mut overrides = OrderedMap::new();
    for (name, record) in entries {
        overrides.insert(name.to_string(), record);
    }
    ConsolidatorConfig { overrides }
}

/// What a registry of platforms would report for `cfg(unix)`.
fn unix_matches() -> OrderedMap<String, Vec<String>> {
    labels_of(&[("cfg(unix)", &[DARWIN, LINUX])])
}

fn engine(
    config: ConsolidatorConfig,
    filter: &[&str],
    matches: OrderedMap<String, Vec<String>>,
    packages: Vec<CrateContext>,
) -> Consolidator<String, u32> {
    Consolidator::new(
        config,
        text("render"),
        text("digest"),
        set_of(filter),
        matches,
        packages,
        7,
        BTreeMap::new(),
    )
}

fn run(
    config: ConsolidatorConfig,
    filter: &[&str],
    matches: OrderedMap<String, Vec<String>>,
    packages: Vec<CrateContext>,
) -> Result<RendererInput<String, u32>, ConsolidationError> {
    engine(config, filter, matches, packages).consolidate()
}

#[test]
fn one_duplicate_is_reported_in_the_singular() {
    let packages = vec![package("A", "1.0"), package("A", "1.0"), package("B", "2.0")];
    let error = run(config_of(vec![]), &[LINUX], OrderedMap::new(), packages).err().unwrap();
    assert_eq!(
        error.message(),
        "Got duplicate source for identical crate name and version combination: A 1.0"
    );
    match error {
        ConsolidationError::DuplicateSources { duplicates } => {
            assert_eq!(duplicates, vec![(text("A"), text("1.0"))]);
        }
        other => panic!("unexpected error {:?}", other),
    }
}

#[test]
fn two_duplicates_are_reported_in_the_plural() {
    let packages = vec![
        package("A", "1.0"),
        package("A", "1.0"),
        package("B", "2.0"),
        package("B", "2.0"),
    ];
    let error = run(config_of(vec![]), &[LINUX], OrderedMap::new(), packages).err().unwrap();
    assert_eq!(
        error.message(),
        "Got duplicate sources for identical crate name and version combinations: A 1.0, B 2.0"
    );
}

#[test]
fn the_singular_wording_has_no_plural_in_it() {
    let packages = vec![package("A", "1.0"), package("A", "1.0"), package("B", "2.0")];
    let message = validate(&packages).err().unwrap().message();
    assert!(message.starts_with("Got duplicate source for "));
    assert!(!message.contains("sources"));
    assert!(!message.contains("combinations"));
    assert!(message.ends_with(": A 1.0"));
    assert!(!message.contains("B 2.0"));
}

#[test]
fn wording_goes_by_distinct_duplicates_not_by_instances() {
    let packages = vec![package("A", "1.0"), package("A", "1.0"), package("A", "1.0")];
    let error = validate(&packages).err().unwrap();
    assert_eq!(
        error.message(),
        "Got duplicate source for identical crate name and version combination: A 1.0"
    );
}

#[test]
fn duplicates_are_listed_by_name_then_version() {
    let packages = vec![
        package("b", "1.0"),
        package("a", "2.0"),
        package("ab", "0.1"),
        package("a", "2.0"),
        package("b", "1.0"),
        package("a", "1.0"),
        package("ab", "0.1"),
        package("a", "1.0"),
        package("c", "3.0"),
    ];
    assert_eq!(
        find_duplicates(&packages),
        vec![
            (text("a"), text("1.0")),
            (text("a"), text("2.0")),
            (text("ab"), text("0.1")),
            (text("b"), text("1.0")),
        ]
    );
}

#[test]
fn duplicates_of_one_name_are_listed_in_the_order_of_their_versions() {
    let packages = vec![
        package("A", "10.0.0"),
        package("A", "9.0.0"),
        package("A", "10.0.0"),
        package("A", "9.0.0"),
        package("A", "9.0.0-rc.1"),
        package("A", "9.0.0-rc.1"),
    ];
    assert_eq!(
        find_duplicates(&packages),
        vec![
            (text("A"), text("9.0.0-rc.1")),
            (text("A"), text("9.0.0")),
            (text("A"), text("10.0.0")),
        ]
    );
    let error = run(config_of(vec![]), &[LINUX], OrderedMap::new(), packages).err().unwrap();
    assert_eq!(
        error.message(),
        "Got duplicate sources for identical crate name and version combinations: \
         A 9.0.0-rc.1, A 9.0.0, A 10.0.0"
    );
}

#[test]
fn same_name_with_different_versions_is_no_duplicate() {
    let packages = vec![package("A", "1.0"), package("A", "2.0")];
    assert!(validate(&packages).is_ok());
    assert!(find_duplicates(&packages).is_empty());
}

#[test]
fn an_empty_graph_is_valid_and_consolidates_to_nothing() {
    assert!(validate(&Vec::new()).is_ok());
    let out = run(config_of(vec![]), &[], OrderedMap::new(), Vec::new()).unwrap();
    assert!(out.resolved_packages.is_empty());
}

#[test]
fn duplicates_are_reported_before_any_override_is_looked_at() {
    let mut record = ConsolidatorOverride::default();
    record.extra_bazel_deps = labels_of(&[("not-a-platform", &["//x"])]);
    let packages = vec![package("A", "1.0"), package("A", "1.0")];
    let error =
        run(config_of(vec![("A", record)]), &[LINUX], OrderedMap::new(), packages).err().unwrap();
    assert!(matches!(error, ConsolidationError::DuplicateSources { .. }));
}

#[test]
fn without_overrides_packages_pass_through() {
    let mut first = package("A", "1.0");
    first.features = texts(&["default"]);
    first.raze_settings.additional_env = env_of(&[("X", "1")]);
    let mut deps = CrateDependencyContext::new();
    deps.dependencies.insert(into_buildable_dependency(&text("//a:b")));
    first.targeted_deps.push(CrateTargetedDepContext {
        target: text(LINUX),
        deps,
        platform_targets: texts(&[LINUX]),
    });
    let packages = vec![first, package("B", "2.0")];
    let mut labels = BTreeMap::new();
    labels.insert(text("//a"), BTreeSet::from([text("A-1.0")]));
    let out = Consolidator::new(
        config_of(vec![]),
        text("render"),
        text("digest"),
        set_of(&[LINUX]),
        OrderedMap::new(),
        packages,
        7u32,
        labels.clone(),
    )
    .consolidate()
    .unwrap();
    assert_eq!(out.render_config, "render");
    assert_eq!(out.digest, "digest");
    assert_eq!(out.member_packages_version_mapping, 7);
    assert_eq!(out.label_to_crates, labels);
    assert_eq!(out.resolved_packages.len(), 2);
    let a = &out.resolved_packages[0];
    assert_eq!((a.pkg_name.as_str(), a.pkg_version.as_str()), ("A", "1.0"));
    assert_eq!(a.features, texts(&["default"]));
    assert_eq!(env_pairs(&a.raze_settings.additional_env), vec![(text("X"), text("1"))]);
    assert_eq!(a.targeted_deps.len(), 1);
    assert_eq!(a.targeted_deps[0].target, LINUX);
    assert_eq!(a.targeted_deps[0].platform_targets, texts(&[LINUX]));
    assert_eq!(targets_of(&a.targeted_deps[0].deps.dependencies), texts(&["//a:b"]));
    let b = &out.resolved_packages[1];
    assert_eq!((b.pkg_name.as_str(), b.pkg_version.as_str()), ("B", "2.0"));
    assert!(b.targeted_deps.is_empty());
    assert!(b.features.is_empty());
}

#[test]
fn an_override_value_wins_over_the_package_value() {
    let mut pkg = package("A", "1.0");
    pkg.raze_settings.additional_env = env_of(&[("X", "1")]);
    let mut record = ConsolidatorOverride::default();
    record.extra_rustc_env_vars = env_of(&[("X", "2"), ("Y", "3")]);
    let out =
        run(config_of(vec![("A", record)]), &[LINUX], OrderedMap::new(), vec![pkg]).unwrap();
    let settings = &out.resolved_packages[0].raze_settings;
    assert_eq!(
        env_pairs(&settings.additional_env),
        vec![(text("X"), text("2")), (text("Y"), text("3"))]
    );
    assert!(env_pairs(&settings.buildrs_additional_environment_variables).is_empty());
}

#[test]
fn build_script_variables_are_merged_apart_from_the_compile_variables() {
    let mut pkg = package("A", "1.0");
    pkg.raze_settings.additional_env = env_of(&[("KEEP", "k")]);
    pkg.raze_settings.buildrs_additional_environment_variables =
        env_of(&[("OUT", "old"), ("B", "b")]);
    let mut record = ConsolidatorOverride::default();
    record.extra_build_script_env_vars = env_of(&[("OUT", "new"), ("A", "a")]);
    apply_override(&mut pkg, record, &set_of(&[LINUX]), &OrderedMap::new()).unwrap();
    assert_eq!(env_pairs(&pkg.raze_settings.additional_env), vec![(text("KEEP"), text("k"))]);
    assert_eq!(
        env_pairs(&pkg.raze_settings.buildrs_additional_environment_variables),
        vec![(text("A"), text("a")), (text("B"), text("b")), (text("OUT"), text("new"))]
    );
}

#[test]
fn named_features_are_removed() {
    let mut pkg = package("A", "1.0");
    pkg.features = texts(&["default", "extra"]);
    let mut record = ConsolidatorOverride::default();
    record.features_to_remove = set_of(&["extra"]);
    let out =
        run(config_of(vec![("A", record)]), &[LINUX], OrderedMap::new(), vec![pkg]).unwrap();
    assert_eq!(out.resolved_packages[0].features, texts(&["default"]));
}

#[test]
fn removing_a_feature_that_is_not_there_changes_nothing() {
    let mut pkg = package("A", "1.0");
    pkg.features = texts(&["default", "extra"]);
    let mut record = ConsolidatorOverride::default();
    record.features_to_remove = set_of(&["missing"]);
    apply_override(&mut pkg, record, &set_of(&[LINUX]), &OrderedMap::new()).unwrap();
    assert_eq!(pkg.features, texts(&["default", "extra"]));
}

#[test]
fn kept_features_stay_in_their_order() {
    let mut pkg = package("A", "1.0");
    pkg.features = texts(&["z", "drop", "a", "drop", "m"]);
    let mut record = ConsolidatorOverride::default();
    record.features_to_remove = set_of(&["drop"]);
    apply_override(&mut pkg, record, &set_of(&[]), &OrderedMap::new()).unwrap();
    assert_eq!(pkg.features, texts(&["z", "a", "m"]));
}

#[test]
fn a_predicate_selects_the_reported_platforms_of_the_filter() {
    let mut record = ConsolidatorOverride::default();
    record.extra_bazel_deps = labels_of(&[("cfg(unix)", &["//third_party:ssl"])]);
    let out = run(
        config_of(vec![("A", record)]),
        &[LINUX, DARWIN],
        unix_matches(),
        vec![package("A", "1.0")],
    )
    .unwrap();
    let blocks = &out.resolved_packages[0].targeted_deps;
    assert_eq!(blocks.len(), 1);
    assert_eq!(blocks[0].target, "cfg(unix)");
    assert_eq!(blocks[0].platform_targets, texts(&[DARWIN, LINUX]));
    assert_eq!(targets_of(&blocks[0].deps.dependencies), texts(&["//third_party:ssl"]));
}

#[test]
fn a_predicate_that_holds_on_no_platform_of_the_filter_stops_consolidation() {
    let mut record = ConsolidatorOverride::default();
    record.extra_bazel_deps = labels_of(&[("cfg(unix)", &["//third_party:ssl"])]);
    let error = run(
        config_of(vec![("A", record)]),
        &[WINDOWS],
        unix_matches(),
        vec![package("A", "1.0")],
    )
    .err()
    .unwrap();
    assert_eq!(error.message(), "Target cfg(unix) in rule attribute doesn't map to any triple");
    match error {
        ConsolidationError::UnresolvedTarget { target } => assert_eq!(target, "cfg(unix)"),
        other => panic!("unexpected error {:?}", other),
    }
}

#[test]
fn a_predicate_keeps_only_the_platforms_of_the_filter() {
    let selected = select_platforms("cfg(unix)", &set_of(&[LINUX, WINDOWS]), &unix_matches(), false);
    assert_eq!(selected, texts(&[LINUX]));
}

#[test]
fn a_predicate_that_nothing_was_reported_for_selects_nothing() {
    let filter = set_of(&[LINUX]);
    assert!(select_platforms("cfg(windows)", &filter, &unix_matches(), false).is_empty());
    assert!(select_platforms("cfg(", &filter, &OrderedMap::new(), true).is_empty());
    let error = targeted_dep_context_for("cfg(windows)", &filter, &unix_matches()).err().unwrap();
    assert_eq!(error.message(), "Target cfg(windows) in rule attribute doesn't map to any triple");
}

#[test]
fn a_known_triple_resolves_to_itself_whatever_the_filter() {
    let block = targeted_dep_context_for(WINDOWS, &set_of(&[LINUX]), &OrderedMap::new()).unwrap();
    assert_eq!(block.target, WINDOWS);
    assert_eq!(block.platform_targets, texts(&[WINDOWS]));
    assert_eq!(block.deps.dependencies.len(), 0);
    assert_eq!(block.deps.proc_macro_dependencies.len(), 0);
    assert_eq!(block.deps.data_dependencies.len(), 0);
    assert_eq!(block.deps.build_dependencies.len(), 0);
    assert_eq!(block.deps.build_proc_macro_dependencies.len(), 0);
    assert_eq!(block.deps.build_data_dependencies.len(), 0);
    assert_eq!(block.deps.dev_dependencies.len(), 0);
    assert_eq!(block.deps.aliased_dependencies.len(), 0);
    let again = targeted_dep_context_for(WINDOWS, &set_of(&[]), &unix_matches()).unwrap();
    assert_eq!(again.platform_targets, texts(&[WINDOWS]));
}

#[test]
fn an_unknown_triple_resolves_to_nothing() {
    let filter = set_of(&["not-a-platform"]);
    let error = targeted_dep_context_for("not-a-platform", &filter, &OrderedMap::new())
        .err()
        .unwrap();
    assert_eq!(
        error.message(),
        "Target not-a-platform in rule attribute doesn't map to any triple"
    );
    let reported = labels_of(&[("not-a-platform", &["not-a-platform"])]);
    assert!(targeted_dep_context_for("not-a-platform", &filter, &reported).is_err());
    assert!(targeted_dep_context_for("", &filter, &OrderedMap::new()).is_err());
}

#[test]
fn what_is_known_of_a_triple_decides_its_selection() {
    let filter = set_of(&[LINUX]);
    let none = OrderedMap::new();
    assert_eq!(select_platforms("anything", &filter, &none, true), texts(&["anything"]));
    assert!(select_platforms("anything", &filter, &none, false).is_empty());
    assert!(select_platforms(LINUX, &filter, &none, false).is_empty());
}

#[test]
fn predicates_are_told_by_their_opening() {
    assert!(is_cfg_predicate("cfg(unix)"));
    assert!(is_cfg_predicate("cfg("));
    assert!(is_cfg_predicate("cfg(target_os = \"linux\")"));
    assert!(!is_cfg_predicate("cfg"));
    assert!(!is_cfg_predicate(""));
    assert!(!is_cfg_predicate(" cfg(unix)"));
    assert!(!is_cfg_predicate("Cfg(unix)"));
    assert!(!is_cfg_predicate(LINUX));
}

#[test]
fn a_label_becomes_a_dependency_without_name_at_version_zero() {
    let dependency = into_buildable_dependency(&text("//third_party:ssl"));
    assert_eq!(dependency.name, "");
    assert_eq!(dependency.version, "0.0.0");
    assert_eq!(dependency.buildable_target, "//third_party:ssl");
    assert!(!dependency.is_proc_macro);
}

#[test]
fn blocks_come_sorted_by_target_with_one_block_for_a_repeated_target() {
    let filter = set_of(&[LINUX, DARWIN, WINDOWS]);
    let blocks = extra_deps_as_targeted_deps(
        &filter,
        &unix_matches(),
        &labels_of(&[(WINDOWS, &["//w:dep"]), ("cfg(unix)", &["//u:dep", "//u:a", "//u:dep"])]),
        &labels_of(&[("cfg(unix)", &["//u:data"]), (DARWIN, &["//d:data"])]),
        &labels_of(&[(WINDOWS, &["//w:build"])]),
        &labels_of(&[(LINUX, &["//l:build_data"]), (WINDOWS, &["//w:build_data"])]),
    )
    .unwrap();
    let targets: Vec<&str> = blocks.iter().map(|b| b.target.as_str()).collect();
    assert_eq!(targets, vec!["cfg(unix)", DARWIN, WINDOWS, LINUX]);

    let unix = &blocks[0];
    assert_eq!(unix.platform_targets, texts(&[DARWIN, LINUX]));
    assert_eq!(targets_of(&unix.deps.dependencies), texts(&["//u:a", "//u:dep"]));
    assert_eq!(targets_of(&unix.deps.data_dependencies), texts(&["//u:data"]));
    assert_eq!(unix.deps.build_dependencies.len(), 0);
    assert_eq!(unix.deps.build_data_dependencies.len(), 0);

    let darwin = &blocks[1];
    assert_eq!(darwin.platform_targets, texts(&[DARWIN]));
    assert_eq!(darwin.deps.dependencies.len(), 0);
    assert_eq!(targets_of(&darwin.deps.data_dependencies), texts(&["//d:data"]));

    let windows = &blocks[2];
    assert_eq!(windows.platform_targets, texts(&[WINDOWS]));
    assert_eq!(targets_of(&windows.deps.dependencies), texts(&["//w:dep"]));
    assert_eq!(windows.deps.data_dependencies.len(), 0);
    assert_eq!(targets_of(&windows.deps.build_dependencies), texts(&["//w:build"]));
    assert_eq!(targets_of(&windows.deps.build_data_dependencies), texts(&["//w:build_data"]));

    let linux = &blocks[3];
    assert_eq!(targets_of(&linux.deps.build_data_dependencies), texts(&["//l:build_data"]));
    for block in &blocks {
        assert_eq!(block.deps.proc_macro_dependencies.len(), 0);
        assert_eq!(block.deps.build_proc_macro_dependencies.len(), 0);
        assert_eq!(block.deps.dev_dependencies.len(), 0);
        assert_eq!(block.deps.aliased_dependencies.len(), 0);
        for i in 0..block.deps.dependencies.len() {
            let dependency = block.deps.dependencies.element_at(i);
            assert_eq!(dependency.name, "");
            assert_eq!(dependency.version, "0.0.0");
            assert!(!dependency.is_proc_macro);
        }
    }
}

#[test]
fn no_labels_ask_for_no_blocks() {
    let none = OrderedMap::new();
    let blocks =
        extra_deps_as_targeted_deps(&set_of(&[LINUX]), &none, &none, &none, &none, &none).unwrap();
    assert!(blocks.is_empty());
}

#[test]
fn a_target_without_labels_still_gets_its_block() {
    let none = OrderedMap::new();
    let blocks = extra_deps_as_targeted_deps(
        &set_of(&[]),
        &none,
        &labels_of(&[(LINUX, &[])]),
        &none,
        &none,
        &none,
    )
    .unwrap();
    assert_eq!(blocks.len(), 1);
    assert_eq!(blocks[0].target, LINUX);
    assert_eq!(blocks[0].deps.dependencies.len(), 0);
}

#[test]
fn the_first_unresolved_target_in_resolution_order_is_named() {
    let filter = set_of(&[LINUX]);
    let none = OrderedMap::new();
    // Within one table the targets are resolved in ascending order.
    let error = extra_deps_as_targeted_deps(
        &filter,
        &none,
        &labels_of(&[("zzz", &["//z"]), ("aaa", &["//a"]), (LINUX, &["//l"])]),
        &none,
        &none,
        &none,
    )
    .err()
    .unwrap();
    assert_eq!(error.message(), "Target aaa in rule attribute doesn't map to any triple");
    // An earlier table is resolved before a later one.
    let error = extra_deps_as_targeted_deps(
        &filter,
        &none,
        &labels_of(&[(LINUX, &["//l"])]),
        &labels_of(&[("mmm", &["//m"])]),
        &labels_of(&[("bbb", &["//b"])]),
        &labels_of(&[("aaa", &["//a"])]),
    )
    .err()
    .unwrap();
    assert_eq!(error.message(), "Target mmm in rule attribute doesn't map to any triple");
}

#[test]
fn a_failed_override_leaves_the_package_as_it_was() {
    let mut pkg = package("A", "1.0");
    pkg.features = texts(&["default", "extra"]);
    pkg.raze_settings.additional_env = env_of(&[("X", "1")]);
    let mut record = ConsolidatorOverride::default();
    record.extra_rustc_env_vars = env_of(&[("X", "2")]);
    record.features_to_remove = set_of(&["extra"]);
    record.extra_build_script_bazel_deps = labels_of(&[("nowhere", &["//x"])]);
    let error = apply_override(&mut pkg, record, &set_of(&[LINUX]), &OrderedMap::new());
    assert!(matches!(error, Err(ConsolidationError::UnresolvedTarget { .. })));
    assert_eq!(pkg.features, texts(&["default", "extra"]));
    assert_eq!(env_pairs(&pkg.raze_settings.additional_env), vec![(text("X"), text("1"))]);
    assert!(pkg.targeted_deps.is_empty());
}

#[test]
fn new_blocks_follow_the_blocks_that_the_package_had() {
    let mut pkg = package("A", "1.0");
    pkg.targeted_deps.push(CrateTargetedDepContext {
        target: text(WINDOWS),
        deps: CrateDependencyContext::new(),
        platform_targets: texts(&[WINDOWS]),
    });
    let mut record = ConsolidatorOverride::default();
    record.extra_bazel_data_deps = labels_of(&[(DARWIN, &["//d"])]);
    apply_override(&mut pkg, record, &set_of(&[LINUX]), &OrderedMap::new()).unwrap();
    let targets: Vec<&str> = pkg.targeted_deps.iter().map(|b| b.target.as_str()).collect();
    assert_eq!(targets, vec![WINDOWS, DARWIN]);
}

#[test]
fn an_override_is_applied_to_the_first_package_of_its_name_only() {
    let mut record = ConsolidatorOverride::default();
    record.extra_rustc_env_vars = env_of(&[("X", "2")]);
    let packages = vec![package("B", "1.0"), package("A", "1.0"), package("A", "2.0")];
    let out =
        run(config_of(vec![("A", record)]), &[LINUX], OrderedMap::new(), packages).unwrap();
    assert!(env_pairs(&out.resolved_packages[0].raze_settings.additional_env).is_empty());
    assert_eq!(
        env_pairs(&out.resolved_packages[1].raze_settings.additional_env),
        vec![(text("X"), text("2"))]
    );
    assert!(env_pairs(&out.resolved_packages[2].raze_settings.additional_env).is_empty());
    assert_eq!(out.resolved_packages[2].pkg_version, "2.0");
}

#[test]
fn two_runs_on_the_same_inputs_agree() {
    let inputs = || {
        let mut record = ConsolidatorOverride::default();
        record.extra_rustc_env_vars = env_of(&[("X", "2")]);
        record.extra_bazel_deps = labels_of(&[("cfg(unix)", &["//b", "//a"]), (LINUX, &["//c"])]);
        record.features_to_remove = set_of(&["extra"]);
        let mut pkg = package("A", "1.0");
        pkg.features = texts(&["default", "extra"]);
        (config_of(vec![("A", record)]), vec![pkg, package("B", "2.0")])
    };
    let describe = |out: &RendererInput<String, u32>| {
        out.resolved_packages
            .iter()
            .map(|p| {
                let blocks: Vec<String> = p
                    .targeted_deps
                    .iter()
                    .map(|b| {
                        format!(
                            "{}={:?}:{:?}",
                            b.target,
                            b.platform_targets,
                            targets_of(&b.deps.dependencies)
                        )
                    })
                    .collect();
                format!(
                    "{} {} {:?} {:?} {:?}",
                    p.pkg_name,
                    p.pkg_version,
                    p.features,
                    env_pairs(&p.raze_settings.additional_env),
                    blocks
                )
            })
            .collect::<Vec<String>>()
    };
    let (config, packages) = inputs();
    let first = run(config, &[LINUX, DARWIN], unix_matches(), packages).unwrap();
    let (config, packages) = inputs();
    let second = run(config, &[LINUX, DARWIN], unix_matches(), packages).unwrap();
    assert_eq!(describe(&first), describe(&second));
    assert_eq!(
        describe(&first)[0],
        "A 1.0 [\"default\"] [(\"X\", \"2\")] [\"cfg(unix)=[\\\"x86_64-apple-darwin\\\", \
         \\\"x86_64-unknown-linux-gnu\\\"]:[\\\"//a\\\", \\\"//b\\\"]\", \
         \"x86_64-unknown-linux-gnu=[\\\"x86_64-unknown-linux-gnu\\\"]:[\\\"//c\\\"]\"]"
    );
}

#[test]
fn an_override_that_no_package_claims_is_left_unused() {
    let mut record = ConsolidatorOverride::default();
    record.extra_bazel_deps = labels_of(&[("not-a-platform", &["//x"])]);
    record.features_to_remove = set_of(&["default"]);
    let mut pkg = package("A", "1.0");
    pkg.features = texts(&["default"]);
    let out =
        run(config_of(vec![("missing", record)]), &[LINUX], OrderedMap::new(), vec![pkg]).unwrap();
    assert_eq!(out.resolved_packages[0].features, texts(&["default"]));
    assert!(out.resolved_packages[0].targeted_deps.is_empty());
}

#[test]
fn the_first_package_with_an_unresolved_target_stops_consolidation() {
    let mut first = ConsolidatorOverride::default();
    first.extra_bazel_deps = labels_of(&[("first-bad", &["//x"])]);
    let mut second = ConsolidatorOverride::default();
    second.extra_bazel_deps = labels_of(&[("a-second-bad", &["//x"])]);
    let packages = vec![package("Z", "1.0"), package("A", "1.0")];
    let error = run(
        config_of(vec![("A", second), ("Z", first)]),
        &[LINUX],
        OrderedMap::new(),
        packages,
    )
    .err()
    .unwrap();
    assert_eq!(error.message(), "Target first-bad in rule attribute doesn't map to any triple");
}

#[test]
fn the_predicates_of_all_overrides_are_listed_once_in_order() {
    let mut one = ConsolidatorOverride::default();
    one.extra_bazel_deps = labels_of(&[("cfg(unix)", &["//a"]), (LINUX, &["//b"])]);
    one.extra_build_script_bazel_data_deps = labels_of(&[("cfg(windows)", &[])]);
    let mut other = ConsolidatorOverride::default();
    other.extra_bazel_data_deps = labels_of(&[("cfg(unix)", &["//c"]), ("other", &[])]);
    other.extra_build_script_bazel_deps = labels_of(&[("cfg(any())", &["//d"])]);
    let config = config_of(vec![("b", one), ("a", other)]);
    assert_eq!(
        elements(&config.predicate_targets()),
        texts(&["cfg(any())", "cfg(unix)", "cfg(windows)"])
    );
    assert_eq!(config_of(vec![]).predicate_targets().len(), 0);
}

#[test]
fn the_default_override_changes_nothing() {
    let record = ConsolidatorOverride::default();
    assert_eq!(record.extra_rustc_env_vars.len(), 0);
    assert_eq!(record.extra_build_script_env_vars.len(), 0);
    assert_eq!(record.extra_bazel_deps.len(), 0);
    assert_eq!(record.extra_bazel_data_deps.len(), 0);
    assert_eq!(record.extra_build_script_bazel_deps.len(), 0);
    assert_eq!(record.extra_build_script_bazel_data_deps.len(), 0);
    assert_eq!(record.features_to_remove.len(), 0);
    let mut pkg = package("A", "1.0");
    pkg.features = texts(&["default"]);
    apply_override(&mut pkg, record, &set_of(&[]), &OrderedMap::new()).unwrap();
    assert_eq!(pkg.features, texts(&["default"]));
    assert!(pkg.targeted_deps.is_empty());
}
