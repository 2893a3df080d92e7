//! The resolved packages that consolidation works on.

use vstd::prelude::*;
use crate::ordered::{OrderedMap, OrderedSet, SortKey};
use crate::text::{lemma_text_lt_irreflexive, lemma_text_lt_total, lemma_text_lt_transitive, text_lt};
use crate::version::{
    lemma_version_irreflexive, lemma_version_total, lemma_version_transitive, version_before,
    version_precedes,
};

verus! {

/// A dependency on a target that the build system can build.
#[derive(Debug)]
pub struct BuildableDependency {
    pub name: String,
    pub version: String,
    pub buildable_target: String,
    pub is_proc_macro: bool,
}

/// A dependency as plain values.
pub struct DependencyModel {
    pub name: Seq<char>,
    pub version: Seq<char>,
    pub buildable_target: Seq<char>,
    pub is_proc_macro: bool,
}

impl DeepView for BuildableDependency {
    type V = DependencyModel;

    open spec fn deep_view(&self) -> DependencyModel {
        DependencyModel {
            name: self.name@,
            version: self.version@,
            buildable_target: self.buildable_target@,
            is_proc_macro: self.is_proc_macro,
        }
    }
}

/// Dependencies are ordered by name, then by version in the order of
/// versions, then by target, and an ordinary one comes before a procedural
/// macro.
impl SortKey for BuildableDependency {
    open spec fn before(a: DependencyModel, b: DependencyModel) -> bool {
        if a.name != b.name {
            text_lt(a.name, b.name)
        } else if a.version != b.version {
            version_before(a.version, b.version)
        } else if a.buildable_target != b.buildable_target {
            text_lt(a.buildable_target, b.buildable_target)
        } else {
            !a.is_proc_macro && b.is_proc_macro
        }
    }

    proof fn order_laws() {
        assert forall|a: DependencyModel, b: DependencyModel, c: DependencyModel|
            #[trigger] Self::before(a, b) && #[trigger] Self::before(b, c) implies Self::before(
            a,
            c,
        ) by {
            lemma_text_order(a.name, b.name, c.name);
            lemma_version_order(a.version, b.version, c.version);
            lemma_text_order(a.buildable_target, b.buildable_target, c.buildable_target);
        }
        assert forall|a: DependencyModel, b: DependencyModel| a != b implies #[trigger] Self::before(
            a,
            b,
        ) || #[trigger] Self::before(b, a) by {
            if a.name != b.name {
                lemma_text_lt_total(a.name, b.name);
            } else if a.version != b.version {
                lemma_version_total(a.version, b.version);
            } else if a.buildable_target != b.buildable_target {
                lemma_text_lt_total(a.buildable_target, b.buildable_target);
            }
        }
    }

    fn precedes(&self, other: &Self) -> (r: bool) {
        proof {
            String::order_laws();
            if self.version@ != other.version@ {
                lemma_version_total(self.version@, other.version@);
            }
            lemma_version_irreflexive(self.version@);
        }
        if self.name.precedes(&other.name) {
            true
        } else if other.name.precedes(&self.name) {
            false
        } else if version_precedes(self.version.as_str(), other.version.as_str()) {
            true
        } else if version_precedes(other.version.as_str(), self.version.as_str()) {
            false
        } else if self.buildable_target.precedes(&other.buildable_target) {
            true
        } else if other.buildable_target.precedes(&self.buildable_target) {
            false
        } else {
            !self.is_proc_macro && other.is_proc_macro
        }
    }
}

/// What the order of text gives for one field of three values.
pub proof fn lemma_text_order(a: Seq<char>, b: Seq<char>, c: Seq<char>)
    ensures
        text_lt(a, b) && text_lt(b, c) ==> text_lt(a, c) && a != c,
        text_lt(a, b) ==> a != b,
{
    lemma_text_lt_irreflexive(a);
    if text_lt(a, b) && text_lt(b, c) {
        lemma_text_lt_transitive(a, b, c);
    }
}

/// What the order of versions gives for one field of three values.
pub proof fn lemma_version_order(a: Seq<char>, b: Seq<char>, c: Seq<char>)
    ensures
        version_before(a, b) && version_before(b, c) ==> version_before(a, c) && a != c,
        version_before(a, b) ==> a != b,
{
    lemma_version_irreflexive(a);
    if version_before(a, b) && version_before(b, c) {
        lemma_version_transitive(a, b, c);
    }
}

/// The name and version under which a package is known.
#[derive(Debug)]
pub struct SourceId {
    pub name: String,
    pub version: String,
}

impl DeepView for SourceId {
    type V = (Seq<char>, Seq<char>);

    open spec fn deep_view(&self) -> (Seq<char>, Seq<char>) {
        (self.name@, self.version@)
    }
}

/// Sources are ordered by name, and those of one name by version in the
/// order of versions.
impl SortKey for SourceId {
    open spec fn before(a: (Seq<char>, Seq<char>), b: (Seq<char>, Seq<char>)) -> bool {
        if a.0 != b.0 {
            text_lt(a.0, b.0)
        } else {
            version_before(a.1, b.1)
        }
    }

    proof fn order_laws() {
        assert forall|a: (Seq<char>, Seq<char>)| !(#[trigger] Self::before(a, a)) by {
            lemma_version_irreflexive(a.1);
        }
        assert forall|a: (Seq<char>, Seq<char>), b: (Seq<char>, Seq<char>), c: (
            Seq<char>,
            Seq<char>,
        )| #[trigger] Self::before(a, b) && #[trigger] Self::before(b, c) implies Self::before(
            a,
            c,
        ) by {
            lemma_text_order(a.0, b.0, c.0);
            lemma_version_order(a.1, b.1, c.1);
        }
        assert forall|a: (Seq<char>, Seq<char>), b: (Seq<char>, Seq<char>)| a != b implies #[trigger] Self::before(
            a,
            b,
        ) || #[trigger] Self::before(b, a) by {
            if a.0 != b.0 {
                lemma_text_lt_total(a.0, b.0);
            } else {
                lemma_version_total(a.1, b.1);
            }
        }
    }

    fn precedes(&self, other: &Self) -> (r: bool) {
        proof {
            String::order_laws();
        }
        if self.name.precedes(&other.name) {
            true
        } else if other.name.precedes(&self.name) {
            false
        } else {
            version_precedes(self.version.as_str(), other.version.as_str())
        }
    }
}

/// The dependency sets of a package for one scope of platforms.
#[derive(Debug)]
pub struct CrateDependencyContext {
    pub dependencies: OrderedSet<BuildableDependency>,
    pub proc_macro_dependencies: OrderedSet<BuildableDependency>,
    pub data_dependencies: OrderedSet<BuildableDependency>,
    pub build_dependencies: OrderedSet<BuildableDependency>,
    pub build_proc_macro_dependencies: OrderedSet<BuildableDependency>,
    pub build_data_dependencies: OrderedSet<BuildableDependency>,
    pub dev_dependencies: OrderedSet<BuildableDependency>,
    /// The alias under which a target is known, by target.
    pub aliased_dependencies: OrderedMap<String, String>,
}

/// Dependency sets as plain values.
pub struct DependenciesModel {
    pub dependencies: Set<DependencyModel>,
    pub proc_macro_dependencies: Set<DependencyModel>,
    pub data_dependencies: Set<DependencyModel>,
    pub build_dependencies: Set<DependencyModel>,
    pub build_proc_macro_dependencies: Set<DependencyModel>,
    pub build_data_dependencies: Set<DependencyModel>,
    pub dev_dependencies: Set<DependencyModel>,
    pub aliased_dependencies: Map<Seq<char>, Seq<char>>,
}

impl DeepView for CrateDependencyContext {
    type V = DependenciesModel;

    open spec fn deep_view(&self) -> DependenciesModel {
        DependenciesModel {
            dependencies: self.dependencies@,
            proc_macro_dependencies: self.proc_macro_dependencies@,
            data_dependencies: self.data_dependencies@,
            build_dependencies: self.build_dependencies@,
            build_proc_macro_dependencies: self.build_proc_macro_dependencies@,
            build_data_dependencies: self.build_data_dependencies@,
            dev_dependencies: self.dev_dependencies@,
            aliased_dependencies: self.aliased_dependencies.deep_view(),
        }
    }
}

impl CrateDependencyContext {
    /// No dependency of any kind.
    pub open spec fn none() -> DependenciesModel {
        DependenciesModel {
            dependencies: Set::empty(),
            proc_macro_dependencies: Set::empty(),
            data_dependencies: Set::empty(),
            build_dependencies: Set::empty(),
            build_proc_macro_dependencies: Set::empty(),
            build_data_dependencies: Set::empty(),
            dev_dependencies: Set::empty(),
            aliased_dependencies: Map::empty(),
        }
    }

    pub fn new() -> (deps: Self)
        ensures
            deps.deep_view() == Self::none(),
    {
        let deps = CrateDependencyContext {
            dependencies: OrderedSet::new(),
            proc_macro_dependencies: OrderedSet::new(),
            data_dependencies: OrderedSet::new(),
            build_dependencies: OrderedSet::new(),
            build_proc_macro_dependencies: OrderedSet::new(),
            build_data_dependencies: OrderedSet::new(),
            dev_dependencies: OrderedSet::new(),
            aliased_dependencies: OrderedMap::new(),
        };
        assert(deps.aliased_dependencies.deep_view() =~= Map::empty());
        deps
    }
}

/// Dependencies that hold only on the platforms that a target specification
/// selects.
#[derive(Debug)]
pub struct CrateTargetedDepContext {
    /// The target specification as it was written.
    pub target: String,
    pub deps: CrateDependencyContext,
    /// The platforms that the specification resolves to.
    pub platform_targets: Vec<String>,
}

/// A block of targeted dependencies as plain values.
pub struct TargetedModel {
    pub target: Seq<char>,
    pub deps: DependenciesModel,
    pub platform_targets: Seq<Seq<char>>,
}

impl DeepView for CrateTargetedDepContext {
    type V = TargetedModel;

    open spec fn deep_view(&self) -> TargetedModel {
        TargetedModel {
            target: self.target@,
            deps: self.deps.deep_view(),
            platform_targets: self.platform_targets.deep_view(),
        }
    }
}

/// The settings of a package that consolidation may add to.
#[derive(Debug)]
pub struct CrateSettings {
    /// Environment variables for compiling the package.
    pub additional_env: OrderedMap<String, String>,
    /// Environment variables for running the package's build script.
    pub buildrs_additional_environment_variables: OrderedMap<String, String>,
}

/// Settings as plain values.
pub struct SettingsModel {
    pub additional_env: Map<Seq<char>, Seq<char>>,
    pub buildrs_additional_environment_variables: Map<Seq<char>, Seq<char>>,
}

impl DeepView for CrateSettings {
    type V = SettingsModel;

    open spec fn deep_view(&self) -> SettingsModel {
        SettingsModel {
            additional_env: self.additional_env.deep_view(),
            buildrs_additional_environment_variables:
                self.buildrs_additional_environment_variables.deep_view(),
        }
    }
}

/// One resolved package.
#[derive(Debug)]
pub struct CrateContext {
    pub pkg_name: String,
    pub pkg_version: String,
    pub targeted_deps: Vec<CrateTargetedDepContext>,
    pub features: Vec<String>,
    pub raze_settings: CrateSettings,
}

/// A package as plain values.
pub struct PackageModel {
    pub pkg_name: Seq<char>,
    pub pkg_version: Seq<char>,
    pub targeted_deps: Seq<TargetedModel>,
    pub features: Seq<Seq<char>>,
    pub raze_settings: SettingsModel,
}

impl DeepView for CrateContext {
    type V = PackageModel;

    open spec fn deep_view(&self) -> PackageModel {
        PackageModel {
            pkg_name: self.pkg_name@,
            pkg_version: self.pkg_version@,
            targeted_deps: self.targeted_deps.deep_view(),
            features: self.features.deep_view(),
            raze_settings: self.raze_settings.deep_view(),
        }
    }
}

} // verus!
