//! What a user may add to, or take from, one package, and how that is done.

use vstd::prelude::*;
use crate::context::{CrateContext, PackageModel, SettingsModel};
use crate::error::{ConsolidationError, ErrorModel};
use crate::extra_deps::{extra_deps_as_targeted_deps, first_unresolved, LabelTables};
use crate::ordered::{lemma_deep_dom, lemma_keys_of, OrderedMap, OrderedSet};
use crate::targets::{is_cfg_predicate, is_predicate, lemma_filter_all};
use crate::text::{outside, sift};

verus! {

/// The adjustments asked for one crate.
#[derive(Debug)]
pub struct ConsolidatorOverride {
    /// Environment variables for compiling the crate, by name.
    pub extra_rustc_env_vars: OrderedMap<String, String>,
    /// Environment variables for running the crate's build script, by name.
    pub extra_build_script_env_vars: OrderedMap<String, String>,
    /// Labels of further dependencies, by target specification.
    pub extra_bazel_deps: OrderedMap<String, Vec<String>>,
    /// Labels of further data dependencies, by target specification.
    pub extra_bazel_data_deps: OrderedMap<String, Vec<String>>,
    /// Labels of further dependencies of the build script, by target
    /// specification.
    pub extra_build_script_bazel_deps: OrderedMap<String, Vec<String>>,
    /// Labels of further data dependencies of the build script, by target
    /// specification.
    pub extra_build_script_bazel_data_deps: OrderedMap<String, Vec<String>>,
    pub features_to_remove: OrderedSet<String>,
}

/// An override as plain values.
pub struct OverrideModel {
    pub extra_rustc_env_vars: Map<Seq<char>, Seq<char>>,
    pub extra_build_script_env_vars: Map<Seq<char>, Seq<char>>,
    pub extra_bazel_deps: Map<Seq<char>, Seq<Seq<char>>>,
    pub extra_bazel_data_deps: Map<Seq<char>, Seq<Seq<char>>>,
    pub extra_build_script_bazel_deps: Map<Seq<char>, Seq<Seq<char>>>,
    pub extra_build_script_bazel_data_deps: Map<Seq<char>, Seq<Seq<char>>>,
    pub features_to_remove: Set<Seq<char>>,
}

impl DeepView for ConsolidatorOverride {
    type V = OverrideModel;

    open spec fn deep_view(&self) -> OverrideModel {
        OverrideModel {
            extra_rustc_env_vars: self.extra_rustc_env_vars.deep_view(),
            extra_build_script_env_vars: self.extra_build_script_env_vars.deep_view(),
            extra_bazel_deps: self.extra_bazel_deps.deep_view(),
            extra_bazel_data_deps: self.extra_bazel_data_deps.deep_view(),
            extra_build_script_bazel_deps: self.extra_build_script_bazel_deps.deep_view(),
            extra_build_script_bazel_data_deps: self.extra_build_script_bazel_data_deps.deep_view(),
            features_to_remove: self.features_to_remove@,
        }
    }
}

impl Default for ConsolidatorOverride {
    /// The override that changes nothing.
    fn default() -> (nothing: Self)
        ensures
            nothing.deep_view() == OverrideModel::nothing(),
    {
        let nothing = ConsolidatorOverride {
            extra_rustc_env_vars: OrderedMap::new(),
            extra_build_script_env_vars: OrderedMap::new(),
            extra_bazel_deps: OrderedMap::new(),
            extra_bazel_data_deps: OrderedMap::new(),
            extra_build_script_bazel_deps: OrderedMap::new(),
            extra_build_script_bazel_data_deps: OrderedMap::new(),
            features_to_remove: OrderedSet::new(),
        };
        proof {
            assert(nothing.extra_rustc_env_vars.deep_view() =~= Map::empty());
            assert(nothing.extra_build_script_env_vars.deep_view() =~= Map::empty());
            assert(nothing.extra_bazel_deps.deep_view() =~= Map::empty());
            assert(nothing.extra_bazel_data_deps.deep_view() =~= Map::empty());
            assert(nothing.extra_build_script_bazel_deps.deep_view() =~= Map::empty());
            assert(nothing.extra_build_script_bazel_data_deps.deep_view() =~= Map::empty());
        }
        nothing
    }
}

/// The overrides of a run, by crate name.
#[derive(Debug)]
pub struct ConsolidatorConfig {
    pub overrides: OrderedMap<String, ConsolidatorOverride>,
}

impl DeepView for ConsolidatorConfig {
    type V = Map<Seq<char>, OverrideModel>;

    open spec fn deep_view(&self) -> Map<Seq<char>, OverrideModel> {
        self.overrides.deep_view()
    }
}

impl OverrideModel {
    /// The override that holds nothing.
    pub open spec fn nothing() -> OverrideModel {
        OverrideModel {
            extra_rustc_env_vars: Map::empty(),
            extra_build_script_env_vars: Map::empty(),
            extra_bazel_deps: Map::empty(),
            extra_bazel_data_deps: Map::empty(),
            extra_build_script_bazel_deps: Map::empty(),
            extra_build_script_bazel_data_deps: Map::empty(),
            features_to_remove: Set::empty(),
        }
    }

    /// The four tables of labels alone.
    pub open spec fn labels(self) -> LabelTables {
        LabelTables {
            deps: self.extra_bazel_deps,
            data_deps: self.extra_bazel_data_deps,
            build_deps: self.extra_build_script_bazel_deps,
            build_data_deps: self.extra_build_script_bazel_data_deps,
        }
    }
}

/// Puts every variable of `extra` into `env`; where both hold a name, the
/// value of `extra` stays.
fn merge_env(env: &mut OrderedMap<String, String>, extra: &OrderedMap<String, String>)
    ensures
        final(env).deep_view() == old(env).deep_view().union_prefer_right(extra.deep_view()),
{
    let ghost start = env.deep_view();
    let ghost added = extra.deep_view();
    let n = extra.len();
    let mut i: usize = 0;
    assert(env.deep_view() =~= start.union_prefer_right(
        added.restrict(extra.keys().take(0).to_set()),
    ));
    while i < n
        invariant
            i <= n,
            n == extra.keys().len(),
            extra.wf(),
            added == extra.deep_view(),
            env.deep_view() == start.union_prefer_right(
                added.restrict(extra.keys().take(i as int).to_set()),
            ),
        decreases n - i,
    {
        let name = extra.key_at(i);
        let value = extra.value_at(i);
        let ghost before = env.deep_view();
        env.insert(name.clone(), value.clone());
        proof {
            assert(env.deep_view() =~= before.insert(name@, value@));
            let earlier = extra.keys().take(i as int);
            let now = extra.keys().take(i + 1);
            let key = extra.keys()[i as int];
            assert(now =~= earlier.push(key));
            earlier.lemma_push_to_set_commute(key);
            assert(added.contains_key(key) && added[key] == value@);
            assert(added.restrict(now.to_set()) =~= added.restrict(earlier.to_set()).insert(
                key,
                value@,
            ));
            assert(env.deep_view() =~= start.union_prefer_right(added.restrict(now.to_set())));
        }
        i += 1;
    }
    proof {
        assert(extra.keys().take(i as int) =~= extra.keys());
        assert(added.restrict(extra.keys().to_set()) =~= added) by {
            assert forall|k: Seq<char>| added.contains_key(k) implies extra.keys().to_set().contains(
                k,
            ) by {
                lemma_keys_of::<String, String>(extra, k);
            }
        }
    }
}

/// The package `package` after the override `record`: the blocks that the
/// record asks for follow the package's own, the record's variables are in
/// its environments, where on a shared name the record's value stands, and
/// the features that the record names are gone.
pub open spec fn overridden(
    package: PackageModel,
    record: OverrideModel,
    filter: Set<Seq<char>>,
    matches: Map<Seq<char>, Seq<Seq<char>>>,
) -> PackageModel {
    PackageModel {
        pkg_name: package.pkg_name,
        pkg_version: package.pkg_version,
        targeted_deps: package.targeted_deps + record.labels().blocks(filter, matches),
        features: package.features.filter(outside(record.features_to_remove)),
        raze_settings: SettingsModel {
            additional_env: package.raze_settings.additional_env.union_prefer_right(
                record.extra_rustc_env_vars,
            ),
            buildrs_additional_environment_variables:
                package.raze_settings.buildrs_additional_environment_variables.union_prefer_right(
                record.extra_build_script_env_vars,
            ),
        },
    }
}

/// The target specification of `record` that stops its application: the
/// first, in the order in which they are resolved, that selects no platform.
pub open spec fn unresolved_in(
    record: OverrideModel,
    filter: Set<Seq<char>>,
    matches: Map<Seq<char>, Seq<Seq<char>>>,
) -> Option<Seq<char>> {
    first_unresolved(record.labels().order(), filter, matches)
}

/// Applies `record` to `package`. Where one of the record's target
/// specifications selects no platform, the package stays as it was and the
/// error names the first such specification.
pub fn apply_override(
    package: &mut CrateContext,
    record: ConsolidatorOverride,
    target_triples_filter: &OrderedSet<String>,
    matches: &OrderedMap<String, Vec<String>>,
) -> (outcome: Result<(), ConsolidationError>)
    ensures
        match unresolved_in(record.deep_view(), target_triples_filter@, matches.deep_view()) {
            Some(t) => outcome is Err && outcome->Err_0.deep_view() == (
            ErrorModel::UnresolvedTarget { target: t }) && *final(package) == *old(package),
            None => outcome is Ok && final(package).deep_view() == overridden(
                old(package).deep_view(),
                record.deep_view(),
                target_triples_filter@,
                matches.deep_view(),
            ),
        },
{
    let ghost before = package.deep_view();
    let mut extra = match extra_deps_as_targeted_deps(
        target_triples_filter,
        matches,
        &record.extra_bazel_deps,
        &record.extra_bazel_data_deps,
        &record.extra_build_script_bazel_deps,
        &record.extra_build_script_bazel_data_deps,
    ) {
        Ok(extra) => extra,
        Err(error) => { return Err(error); },
    };
    let ghost added = extra.deep_view();
    package.targeted_deps.append(&mut extra);
    assert(package.targeted_deps.deep_view() =~= before.targeted_deps + added);
    merge_env(&mut package.raze_settings.additional_env, &record.extra_rustc_env_vars);
    merge_env(
        &mut package.raze_settings.buildrs_additional_environment_variables,
        &record.extra_build_script_env_vars,
    );
    package.features = sift(&package.features, &record.features_to_remove, false);
    Ok(())
}

impl ConsolidatorConfig {
    /// The predicates among the target specifications of all overrides: what
    /// has to be evaluated against the platforms before the overrides can be
    /// applied.
    pub open spec fn predicates(config: Map<Seq<char>, OverrideModel>) -> Set<Seq<char>> {
        Set::new(
            |target: Seq<char>|
                is_predicate(target) && exists|name: Seq<char>|
                    config.contains_key(name) && #[trigger] config[name].labels().targets().contains(
                        target,
                    ),
        )
    }

    /// The predicates that the overrides name, each once.
    pub fn predicate_targets(&self) -> (found: OrderedSet<String>)
        ensures
            found@ == Self::predicates(self.deep_view()),
    {
        let ghost config = self.deep_view();
        let ghost names = self.overrides.keys();
        let mut found: OrderedSet<String> = OrderedSet::new();
        let n = self.overrides.len();
        let mut i: usize = 0;
        proof {
            lemma_deep_dom::<String, ConsolidatorOverride>(&self.overrides);
            assert(found@ =~= Self::predicates(config.restrict(names.take(0).to_set())));
        }
        while i < n
            invariant
                i <= n,
                n == names.len(),
                self.overrides.wf(),
                names == self.overrides.keys(),
                config == self.deep_view(),
                found@ == Self::predicates(config.restrict(names.take(i as int).to_set())),
            decreases n - i,
        {
            let record = self.overrides.value_at(i);
            let ghost name = names[i as int];
            let ghost tables = record.deep_view().labels();
            proof {
                lemma_keys_of::<String, ConsolidatorOverride>(&self.overrides, name);
                assert(config[name] == record.deep_view());
            }
            add_predicates(&mut found, &record.extra_bazel_deps);
            add_predicates(&mut found, &record.extra_bazel_data_deps);
            add_predicates(&mut found, &record.extra_build_script_bazel_deps);
            add_predicates(&mut found, &record.extra_build_script_bazel_data_deps);
            proof {
                let earlier = config.restrict(names.take(i as int).to_set());
                let later = config.restrict(names.take(i + 1).to_set());
                names.take(i as int).lemma_push_to_set_commute(name);
                assert(names.take(i + 1) =~= names.take(i as int).push(name));
                assert(later =~= earlier.insert(name, config[name]));
                lemma_deep_dom::<String, Vec<String>>(&record.extra_bazel_deps);
                lemma_deep_dom::<String, Vec<String>>(&record.extra_bazel_data_deps);
                lemma_deep_dom::<String, Vec<String>>(&record.extra_build_script_bazel_deps);
                lemma_deep_dom::<String, Vec<String>>(&record.extra_build_script_bazel_data_deps);
                assert forall|t: Seq<char>| found@.contains(t) <==> Self::predicates(
                    later,
                ).contains(t) by {
                    if Self::predicates(earlier).contains(t) {
                        let c = choose|c: Seq<char>|
                            earlier.contains_key(c) && #[trigger] earlier[c].labels().targets().contains(
                                t,
                            );
                        assert(later.contains_key(c) && later[c].labels().targets().contains(t));
                    }
                    if is_predicate(t) && tables.targets().contains(t) {
                        assert(later.contains_key(name) && later[name].labels().targets().contains(
                            t,
                        ));
                    }
                    if Self::predicates(later).contains(t) {
                        let c = choose|c: Seq<char>|
                            later.contains_key(c) && #[trigger] later[c].labels().targets().contains(
                                t,
                            );
                        if c != name {
                            assert(earlier.contains_key(c) && earlier[c].labels().targets().contains(
                                t,
                            ));
                        }
                    }
                }
                assert(found@ =~= Self::predicates(later));
            }
            i += 1;
        }
        proof {
            assert(names.take(i as int) =~= names);
            assert(config.restrict(names.to_set()) =~= config) by {
                assert forall|k: Seq<char>| config.contains_key(k) implies names.to_set().contains(
                    k,
                ) by {
                    lemma_keys_of::<String, ConsolidatorOverride>(&self.overrides, k);
                }
            }
        }
        found
    }
}

/// Puts into `found` the predicates among the target specifications of
/// `table`.
fn add_predicates(found: &mut OrderedSet<String>, table: &OrderedMap<String, Vec<String>>)
    ensures
        table.wf(),
        final(found)@ == old(found)@ + Set::new(
            |t: Seq<char>| is_predicate(t) && table@.contains_key(t),
        ),
{
    let ghost keys = table.keys();
    let n = table.len();
    let mut i: usize = 0;
    assert(found@ =~= old(found)@ + Set::new(
        |t: Seq<char>| is_predicate(t) && keys.take(0).contains(t),
    ));
    while i < n
        invariant
            i <= n,
            n == keys.len(),
            table.wf(),
            keys == table.keys(),
            found@ == old(found)@ + Set::new(
                |t: Seq<char>| is_predicate(t) && keys.take(i as int).contains(t),
            ),
        decreases n - i,
    {
        let target = table.key_at(i);
        if is_cfg_predicate(target.as_str()) {
            found.insert(target.clone());
        }
        proof {
            let earlier = keys.take(i as int);
            let later = keys.take(i + 1);
            assert(later =~= earlier.push(keys[i as int]));
            assert forall|t: Seq<char>| later.contains(t) <==> earlier.contains(t) || t
                == keys[i as int] by {
                if earlier.contains(t) {
                    let j = choose|j: int| 0 <= j < earlier.len() && earlier[j] == t;
                    assert(later[j] == t);
                }
                assert(later[i as int] == keys[i as int]);
            }
            assert(found@ =~= old(found)@ + Set::new(
                |t: Seq<char>| is_predicate(t) && later.contains(t),
            ));
        }
        i += 1;
    }
    proof {
        assert(keys.take(i as int) =~= keys);
        assert forall|t: Seq<char>| keys.contains(t) <==> table@.contains_key(t) by {
            lemma_keys_of::<String, Vec<String>>(table, t);
        }
        assert(found@ =~= old(found)@ + Set::new(
            |t: Seq<char>| is_predicate(t) && table@.contains_key(t),
        ));
    }
}

/// After an override, a variable that the record holds has the record's
/// value, and any other variable of the package has the value it had.
pub proof fn lemma_override_value_wins(
    package: PackageModel,
    record: OverrideModel,
    filter: Set<Seq<char>>,
    matches: Map<Seq<char>, Seq<Seq<char>>>,
    name: Seq<char>,
)
    ensures
        ({
            let before = package.raze_settings.additional_env;
            let after = overridden(package, record, filter, matches).raze_settings.additional_env;
            let extra = record.extra_rustc_env_vars;
            &&& after.contains_key(name) <==> before.contains_key(name) || extra.contains_key(name)
            &&& extra.contains_key(name) ==> after[name] == extra[name]
            &&& before.contains_key(name) && !extra.contains_key(name) ==> after[name]
                == before[name]
        }),
        ({
            let before = package.raze_settings.buildrs_additional_environment_variables;
            let after = overridden(
                package,
                record,
                filter,
                matches,
            ).raze_settings.buildrs_additional_environment_variables;
            let extra = record.extra_build_script_env_vars;
            &&& after.contains_key(name) <==> before.contains_key(name) || extra.contains_key(name)
            &&& extra.contains_key(name) ==> after[name] == extra[name]
            &&& before.contains_key(name) && !extra.contains_key(name) ==> after[name]
                == before[name]
        }),
{
}

/// After an override, the package has a feature exactly where it had it and
/// the record does not remove it.
pub proof fn lemma_features_left(
    package: PackageModel,
    record: OverrideModel,
    filter: Set<Seq<char>>,
    matches: Map<Seq<char>, Seq<Seq<char>>>,
    feature: Seq<char>,
)
    ensures
        overridden(package, record, filter, matches).features.contains(feature)
            <==> package.features.contains(feature) && !record.features_to_remove.contains(
            feature,
        ),
{
    let all = package.features;
    let stays = outside(record.features_to_remove);
    let kept = all.filter(stays);
    if kept.contains(feature) {
        let i = choose|i: int| 0 <= i < kept.len() && kept[i] == feature;
        all.lemma_filter_pred(stays, i);
        all.lemma_filter_contains_rev(stays, feature);
    }
    if all.contains(feature) && stays(feature) {
        let i = choose|i: int| 0 <= i < all.len() && all[i] == feature;
        all.lemma_filter_contains(stays, i);
    }
}

/// Removing features that the package does not have leaves its features as
/// they were.
pub proof fn lemma_absent_features_ignored(
    package: PackageModel,
    record: OverrideModel,
    filter: Set<Seq<char>>,
    matches: Map<Seq<char>, Seq<Seq<char>>>,
)
    requires
        forall|i: int|
            0 <= i < package.features.len() ==> !record.features_to_remove.contains(
                #[trigger] package.features[i],
            ),
    ensures
        overridden(package, record, filter, matches).features == package.features,
{
    lemma_filter_all(package.features, outside(record.features_to_remove));
}

} // verus!
